//! A working session with a parsed machine: walking its transitions,
//! collecting stakeholders' comments, naming and pruning saved versions, and
//! the colour theme.

use vstd::prelude::*;
use crate::model::{start_of, strings_view, ActionView, MachineView, ParsedMachine};
use crate::parser::trimmed;
use crate::ranking::{ints, strictly_sorted};
use crate::studio::{djb2, hash_source, notes_view, push_str, NoteView, UserComment};
use crate::text::{chars_of, trim};
use crate::order::{chars_lt, lemma_lt_irreflexive, lemma_lt_total, lemma_lt_transitive, str_lt};

verus! {

/// The state the walk stands on: the last state of the path, or the start
/// state when the path is empty.
pub open spec fn current_of(chain: Seq<Seq<char>>, m: MachineView) -> Seq<char> {
    if chain.len() > 0 {
        chain.last()
    } else {
        start_of(m)
    }
}

/// The state the walk stands on.
pub fn current_state(parsed: &ParsedMachine, chain: &Vec<String>) -> (r: String)
    ensures
        r@ == current_of(strings_view(chain@), parsed@),
{
    if chain.len() > 0 {
        chain[chain.len() - 1].clone()
    } else {
        parsed.start_state()
    }
}

/// Whether the list holds the text.
fn holds_text(v: &Vec<String>, x: &String) -> (r: bool)
    ensures
        r == strings_view(v@).contains(x@),
{
    let mut i: usize = 0;
    while i < v.len()
        invariant
            i <= v.len(),
            forall|j: int| 0 <= j < i ==> strings_view(v@)[j] != x@,
        decreases v.len() - i,
    {
        if v[i] == *x {
            assert(strings_view(v@)[i as int] == x@);
            return true;
        }
        i += 1;
    }
    false
}

/// The positions of the actions that leave `cur`, in action order.
pub open spec fn leaving(acts: Seq<ActionView>, cur: Seq<char>) -> Seq<int>
    decreases acts.len(),
{
    if acts.len() == 0 {
        seq![]
    } else {
        leaving(acts.drop_last(), cur) + if acts.last().from.contains(cur) {
            seq![acts.len() - 1]
        } else {
            seq![]
        }
    }
}

/// The actions that can be taken from `current`, by position.
pub fn available_actions(parsed: &ParsedMachine, current: &String) -> (r: Vec<usize>)
    ensures
        ints(r@) == leaving(parsed@.actions, current@),
{
    let ghost acts = parsed@.actions;
    let mut r: Vec<usize> = Vec::new();
    let mut i: usize = 0;
    assert(acts.take(0) =~= Seq::<ActionView>::empty());
    while i < parsed.actions.len()
        invariant
            i <= parsed.actions.len(),
            acts == parsed@.actions,
            ints(r@) == leaving(acts.take(i as int), current@),
        decreases parsed.actions.len() - i,
    {
        assert(acts.take(i + 1).drop_last() =~= acts.take(i as int));
        assert(acts.take(i + 1).last() == parsed.actions@[i as int]@);
        let ghost before = r@;
        if holds_text(&parsed.actions[i].from, current) {
            r.push(i);
            assert(ints(r@) =~= ints(before) + seq![i as int]);
        } else {
            assert(leaving(acts.take(i + 1), current@) =~= leaving(acts.take(i as int), current@));
        }
        i += 1;
    }
    assert(acts.take(i as int) =~= acts);
    r
}

/// Whether some action that leaves `cur` goes to `t`.
pub open spec fn reachable_next(acts: Seq<ActionView>, cur: Seq<char>, t: Seq<char>) -> bool {
    exists|i: int| 0 <= i < acts.len() && (#[trigger] acts[i]).from.contains(cur) && acts[i].to.contains(t)
}

/// Inserts `x` into a strictly increasing list, unless it is there already.
fn insert_sorted(out: &mut Vec<String>, x: &String)
    requires
        strictly_sorted(strings_view(old(out)@)),
    ensures
        strictly_sorted(strings_view(final(out)@)),
        forall|k: Seq<char>| #[trigger] strings_view(final(out)@).contains(k) <==> (strings_view(old(out)@).contains(k) || k == x@),
{
    let ghost before = strings_view(out@);
    let xc = chars_of(x.as_str());
    let mut p: usize = 0;
    while p < out.len() && !chars_lt(&xc, &chars_of(out[p].as_str()))
        invariant
            p <= out.len(),
            xc@ == x@,
            before == strings_view(out@),
            forall|q: int| 0 <= q < p ==> !str_lt(x@, #[trigger] before[q]),
        decreases out.len() - p,
    {
        p += 1;
    }
    if p > 0 && out[p - 1] == *x {
        assert(before[p - 1] == x@);
        assert forall|k: Seq<char>| #[trigger] before.contains(k) <==> (before.contains(k) || k == x@) by {
            if k == x@ {
                assert(before.contains(before[p - 1]));
            }
        }
        return;
    }
    assert forall|q: int| 0 <= q < p implies str_lt(#[trigger] before[q], x@) by {
        if before[q] == x@ {
            if q < p - 1 {
                assert(str_lt(before[q], before[p - 1]));
                lemma_lt_total(before[p - 1], x@);
                if str_lt(before[p - 1], x@) {
                    lemma_lt_transitive(x@, before[p - 1], x@);
                }
                lemma_lt_irreflexive(x@);
            }
        } else {
            lemma_lt_total(before[q], x@);
        }
    }
    out.insert(p, x.clone());
    let ghost after = strings_view(out@);
    assert(after =~= before.insert(p as int, x@));
    assert forall|a: int, b: int| 0 <= a < b < after.len() implies str_lt(#[trigger] after[a], #[trigger] after[b]) by {
        if b < p {
        } else if a > p {
            assert(after[a] == before[a - 1] && after[b] == before[b - 1]);
        } else if a == p {
            assert(after[b] == before[b - 1]);
            assert(str_lt(x@, before[p as int]));
            if b - 1 > p {
                lemma_lt_transitive(x@, before[p as int], before[b - 1]);
            }
        } else if b == p {
        } else {
            assert(after[b] == before[b - 1]);
            assert(str_lt(before[a], x@));
            assert(str_lt(x@, before[p as int]));
            lemma_lt_transitive(before[a], x@, before[p as int]);
            if b - 1 > p {
                lemma_lt_transitive(before[a], before[p as int], before[b - 1]);
            }
        }
    }
    assert forall|k: Seq<char>| #[trigger] after.contains(k) <==> (before.contains(k) || k == x@) by {
        if after.contains(k) {
            let q = choose|q: int| 0 <= q < after.len() && after[q] == k;
            if q != p {
                let qq = if q < p { q } else { q - 1 };
                assert(before[qq] == k);
            }
        }
        if before.contains(k) {
            let q = choose|q: int| 0 <= q < before.len() && before[q] == k;
            let qq = if q < p { q } else { q + 1 };
            assert(after[qq] == k);
        }
        if k == x@ {
            assert(after[p as int] == k);
        }
    }
}

/// The states reachable in one step from `current`, each once, in order of name.
pub fn available_targets(parsed: &ParsedMachine, current: &String) -> (r: Vec<String>)
    ensures
        strictly_sorted(strings_view(r@)),
        forall|t: Seq<char>| #[trigger] strings_view(r@).contains(t) <==> reachable_next(parsed@.actions, current@, t),
{
    let ghost acts = parsed@.actions;
    let mut out: Vec<String> = Vec::new();
    let mut i: usize = 0;
    while i < parsed.actions.len()
        invariant
            i <= parsed.actions.len(),
            acts == parsed@.actions,
            strictly_sorted(strings_view(out@)),
            forall|t: Seq<char>| #[trigger] strings_view(out@).contains(t) <==> exists|j: int|
                0 <= j < i && (#[trigger] acts[j]).from.contains(current@) && acts[j].to.contains(t),
        decreases parsed.actions.len() - i,
    {
        let a = &parsed.actions[i];
        assert(acts[i as int] == a@);
        if holds_text(&a.from, current) {
            let ghost mid = strings_view(out@);
            let mut k: usize = 0;
            while k < a.to.len()
                invariant
                    k <= a.to.len(),
                    acts == parsed@.actions,
                    acts[i as int] == a@,
                    a@.from.contains(current@),
                    strictly_sorted(strings_view(out@)),
                    forall|t: Seq<char>| #[trigger] strings_view(out@).contains(t) <==> (mid.contains(t)
                        || strings_view(a.to@).take(k as int).contains(t)),
                decreases a.to.len() - k,
            {
                let ghost tv = strings_view(a.to@);
                let ghost prev = strings_view(out@);
                assert(tv[k as int] == a.to@[k as int]@);
                insert_sorted(&mut out, &a.to[k]);
                assert forall|t: Seq<char>| tv.take(k + 1).contains(t) <==> (tv.take(k as int).contains(t) || t == tv[k as int]) by {
                    if tv.take(k + 1).contains(t) {
                        let q = choose|q: int| 0 <= q < k + 1 && #[trigger] tv.take(k + 1)[q] == t;
                        if q < k {
                            assert(tv.take(k as int)[q] == t);
                        }
                    }
                    if tv.take(k as int).contains(t) {
                        let q = choose|q: int| 0 <= q < k && #[trigger] tv.take(k as int)[q] == t;
                        assert(tv.take(k + 1)[q] == t);
                    }
                    if t == tv[k as int] {
                        assert(tv.take(k + 1)[k as int] == t);
                    }
                }
                assert forall|t: Seq<char>| #[trigger] strings_view(out@).contains(t) <==> (mid.contains(t)
                    || tv.take(k + 1).contains(t)) by {
                    assert(strings_view(out@).contains(t) <==> (prev.contains(t) || t == tv[k as int]));
                    assert(prev.contains(t) <==> (mid.contains(t) || tv.take(k as int).contains(t)));
                }
                k += 1;
            }
            assert(strings_view(a.to@).take(k as int) =~= strings_view(a.to@));
            assert forall|t: Seq<char>| #[trigger] strings_view(out@).contains(t) <==> exists|j: int|
                0 <= j < i + 1 && (#[trigger] acts[j]).from.contains(current@) && acts[j].to.contains(t) by {
                if strings_view(a.to@).contains(t) {
                    assert(acts[i as int].to.contains(t));
                }
                if exists|j: int| 0 <= j < i + 1 && (#[trigger] acts[j]).from.contains(current@) && acts[j].to.contains(t) {
                    let j = choose|j: int| 0 <= j < i + 1 && (#[trigger] acts[j]).from.contains(current@) && acts[j].to.contains(t);
                    if j == i {
                        assert(strings_view(a.to@) == acts[i as int].to);
                    }
                }
            }
        } else {
            assert forall|t: Seq<char>| #[trigger] strings_view(out@).contains(t) <==> exists|j: int|
                0 <= j < i + 1 && (#[trigger] acts[j]).from.contains(current@) && acts[j].to.contains(t) by {
                if exists|j: int| 0 <= j < i + 1 && (#[trigger] acts[j]).from.contains(current@) && acts[j].to.contains(t) {
                    let j = choose|j: int| 0 <= j < i + 1 && (#[trigger] acts[j]).from.contains(current@) && acts[j].to.contains(t);
                    assert(j != i);
                }
            }
        }
        i += 1;
    }
    out
}

/// The first action, in action order, that `p` accepts.
pub open spec fn first_action(acts: Seq<ActionView>, p: spec_fn(ActionView) -> bool) -> Option<ActionView>
    decreases acts.len(),
{
    if acts.len() == 0 {
        None
    } else if p(acts[0]) {
        Some(acts[0])
    } else {
        first_action(acts.drop_first(), p)
    }
}

/// Actions from `a` to `b`.
pub open spec fn goes(a: Seq<char>, b: Seq<char>) -> spec_fn(ActionView) -> bool {
    |x: ActionView| x.from.contains(a) && x.to.contains(b)
}

/// Actions that leave `a`.
pub open spec fn leaves(a: Seq<char>) -> spec_fn(ActionView) -> bool {
    |x: ActionView| x.from.contains(a)
}

/// The narrative shown for the state the walk stands on: the comment of the
/// first action that led here from the previous state; at the start of the
/// walk, that of the first action leaving it.
pub open spec fn node_comment_of(m: MachineView, chain: Seq<Seq<char>>) -> Option<Seq<char>> {
    let cur = current_of(chain, m);
    let found = if chain.len() >= 2 {
        first_action(m.actions, goes(chain[chain.len() - 2], cur))
    } else {
        first_action(m.actions, leaves(cur))
    };
    match found {
        Some(a) => a.comment,
        None => None,
    }
}

/// The narrative for the state the walk stands on.
pub fn current_node_comment(parsed: &ParsedMachine, chain: &Vec<String>) -> (r: Option<String>)
    ensures
        crate::model::opt_view(r) == node_comment_of(parsed@, strings_view(chain@)),
{
    let cur = current_state(parsed, chain);
    let ghost acts = parsed@.actions;
    let ghost p = if chain.len() >= 2 {
        goes(strings_view(chain@)[chain.len() - 2], cur@)
    } else {
        leaves(cur@)
    };
    let mut i: usize = 0;
    assert(acts.skip(0) =~= acts);
    while i < parsed.actions.len()
        invariant
            i <= parsed.actions.len(),
            acts == parsed@.actions,
            cur@ == current_of(strings_view(chain@), parsed@),
            p == if chain.len() >= 2 {
                goes(strings_view(chain@)[chain.len() - 2], cur@)
            } else {
                leaves(cur@)
            },
            first_action(acts, p) == first_action(acts.skip(i as int), p),
        decreases parsed.actions.len() - i,
    {
        let a = &parsed.actions[i];
        assert(acts.skip(i as int)[0] == a@);
        assert(acts.skip(i as int).drop_first() =~= acts.skip(i + 1));
        let hit = if chain.len() >= 2 {
            holds_text(&a.from, &chain[chain.len() - 2]) && holds_text(&a.to, &cur)
        } else {
            holds_text(&a.from, &cur)
        };
        if hit {
            return match &a.comment {
                Some(c) => Some(c.clone()),
                None => None,
            };
        }
        i += 1;
    }
    assert(acts.skip(i as int).len() == 0);
    None
}

/// The path with its last state dropped, unless it holds one state or none.
pub open spec fn back_of(chain: Seq<Seq<char>>) -> Seq<Seq<char>> {
    if chain.len() > 1 {
        chain.drop_last()
    } else {
        chain
    }
}

/// Steps back one state; gives the state the walk then stands on, or
/// nothing when the path is too short to step back.
pub fn sim_back(chain: &mut Vec<String>) -> (r: Option<String>)
    ensures
        strings_view(final(chain)@) == back_of(strings_view(old(chain)@)),
        match r {
            Some(s) => old(chain)@.len() > 1 && s@ == strings_view(old(chain)@).drop_last().last(),
            None => old(chain)@.len() <= 1,
        },
{
    if chain.len() > 1 {
        let ghost before = strings_view(chain@);
        chain.pop();
        assert(strings_view(chain@) =~= before.drop_last());
        Some(chain[chain.len() - 1].clone())
    } else {
        None
    }
}

/// The comments with a new one from `author` on `target`, holding the draft
/// without surrounding white space and the path walked; unchanged when the
/// draft is blank or there is no target.
pub open spec fn with_comment(
    cs: Seq<NoteView>,
    target: Option<Seq<char>>,
    author: Seq<char>,
    draft: Seq<char>,
    chain: Seq<Seq<char>>,
) -> Seq<NoteView> {
    let text = trim(draft);
    if text.len() == 0 || target is None {
        cs
    } else {
        cs.push(NoteView { target: target->0, author, text, category: None, chain: Some(chain) })
    }
}

/// A copy of the list of names.
fn copy_names(v: &Vec<String>) -> (r: Vec<String>)
    ensures
        strings_view(r@) == strings_view(v@),
{
    let mut r: Vec<String> = Vec::new();
    let mut i: usize = 0;
    while i < v.len()
        invariant
            i <= v.len(),
            strings_view(r@) =~= strings_view(v@).take(i as int),
        decreases v.len() - i,
    {
        r.push(v[i].clone());
        assert(strings_view(v@).take(i + 1) =~= strings_view(v@).take(i as int).push(v@[i as int]@));
        i += 1;
    }
    assert(strings_view(v@).take(i as int) =~= strings_view(v@));
    r
}

/// Adds a comment from `author` on `target` with the draft's text and the
/// path walked; says whether one was added.
pub fn submit_comment(
    comments: &mut Vec<UserComment>,
    target: &Option<String>,
    author: &String,
    draft: &String,
    chain: &Vec<String>,
) -> (added: bool)
    ensures
        notes_view(final(comments)@) == with_comment(
            notes_view(old(comments)@),
            crate::model::opt_view(*target),
            author@,
            draft@,
            strings_view(chain@),
        ),
        added == (trim(draft@).len() > 0 && target is Some),
{
    let text = trimmed(&chars_of(draft.as_str()));
    if text.as_str().unicode_len() == 0 {
        return false;
    }
    match target {
        Some(t) => {
            let ghost before = notes_view(comments@);
            let c = UserComment {
                target: t.clone(),
                author: author.clone(),
                text,
                category: None,
                chain: Some(copy_names(chain)),
            };
            comments.push(c);
            assert(notes_view(comments@) =~= before.push(c@));
            true
        },
        None => false,
    }
}

/// The comments with the text of comment `idx` replaced by `text` without
/// surrounding white space; unchanged when that is blank or there is no such
/// comment.
pub open spec fn with_edit(cs: Seq<NoteView>, idx: int, text: Seq<char>) -> Seq<NoteView> {
    let t = trim(text);
    if t.len() == 0 || idx >= cs.len() {
        cs
    } else {
        cs.update(idx, NoteView { text: t, ..cs[idx] })
    }
}

/// Replaces the text of comment `idx`; says whether it did.
pub fn save_comment_edit(comments: &mut Vec<UserComment>, idx: usize, text: &String) -> (changed: bool)
    ensures
        notes_view(final(comments)@) == with_edit(notes_view(old(comments)@), idx as int, text@),
        changed == (trim(text@).len() > 0 && idx < old(comments)@.len()),
{
    let t = trimmed(&chars_of(text.as_str()));
    if t.as_str().unicode_len() == 0 || idx >= comments.len() {
        return false;
    }
    let ghost before = notes_view(comments@);
    let old_c = &comments[idx];
    let c = UserComment {
        target: old_c.target.clone(),
        author: old_c.author.clone(),
        text: t,
        category: match &old_c.category {
            Some(x) => Some(x.clone()),
            None => None,
        },
        chain: match &old_c.chain {
            Some(ch) => Some(copy_names(ch)),
            None => None,
        },
    };
    comments.set(idx, c);
    assert(notes_view(comments@) =~= with_edit(before, idx as int, text@));
    true
}

/// The comments without comment `idx`, when there is one.
pub open spec fn without(cs: Seq<NoteView>, idx: int) -> Seq<NoteView> {
    if 0 <= idx < cs.len() {
        cs.remove(idx)
    } else {
        cs
    }
}

/// Deletes comment `idx`; says whether there was one.
pub fn delete_comment(comments: &mut Vec<UserComment>, idx: usize) -> (removed: bool)
    ensures
        notes_view(final(comments)@) == without(notes_view(old(comments)@), idx as int),
        removed == (idx < old(comments)@.len()),
{
    if idx < comments.len() {
        let ghost before = notes_view(comments@);
        comments.remove(idx);
        assert(notes_view(comments@) =~= before.remove(idx as int));
        true
    } else {
        false
    }
}

/// The author's name as typed, or `"Anonymous"` when it is blank.
pub open spec fn author_of(input: Seq<char>) -> Seq<char> {
    if trim(input).len() == 0 {
        "Anonymous"@
    } else {
        input
    }
}

/// The name to sign comments with.
pub fn author_name(input: &String) -> (r: String)
    ensures
        r@ == author_of(input@),
{
    let t = trimmed(&chars_of(input.as_str()));
    if t.as_str().unicode_len() == 0 {
        String::from_str("Anonymous")
    } else {
        input.clone()
    }
}

/// A saved version's name: the name typed (else the module's name) without
/// surrounding white space, with the time in parentheses; `"Snapshot"` and
/// the time when both are blank.
pub open spec fn snapshot_name_of(typed: Seq<char>, module_name: Seq<char>, ts: Seq<char>) -> Seq<char> {
    let base = if trim(typed).len() == 0 { trim(module_name) } else { trim(typed) };
    if base.len() == 0 {
        "Snapshot "@ + ts
    } else {
        base + " ("@ + ts + ")"@
    }
}

/// Names a saved version.
pub fn snapshot_name(typed: &String, module_name: &String, ts: &String) -> (r: String)
    ensures
        r@ == snapshot_name_of(typed@, module_name@, ts@),
{
    let t = trimmed(&chars_of(typed.as_str()));
    let base = if t.as_str().unicode_len() == 0 {
        trimmed(&chars_of(module_name.as_str()))
    } else {
        t
    };
    let mut out = String::new();
    if base.as_str().unicode_len() == 0 {
        push_str(&mut out, "Snapshot ");
        push_str(&mut out, ts.as_str());
    } else {
        push_str(&mut out, base.as_str());
        push_str(&mut out, " (");
        push_str(&mut out, ts.as_str());
        push_str(&mut out, ")");
    }
    out
}

/// Whether `name` begins with `prefix`.
pub open spec fn begins_with(name: Seq<char>, prefix: Seq<char>) -> bool {
    name.len() >= prefix.len() && name.take(prefix.len() as int) == prefix
}

/// Whether `name` begins with `prefix`.
fn starts_with(name: &String, prefix: &Vec<char>) -> (r: bool)
    ensures
        r == begins_with(name@, prefix@),
{
    let cs = chars_of(name.as_str());
    if cs.len() < prefix.len() {
        return false;
    }
    let mut i: usize = 0;
    while i < prefix.len()
        invariant
            i <= prefix.len() <= cs.len(),
            cs@ == name@,
            forall|j: int| 0 <= j < i ==> cs@[j] == prefix@[j],
        decreases prefix.len() - i,
    {
        if cs[i] != prefix[i] {
            assert(name@.take(prefix.len() as int)[i as int] != prefix@[i as int]);
            return false;
        }
        i += 1;
    }
    assert(name@.take(prefix.len() as int) =~= prefix@);
    true
}

/// How many of the names begin with `prefix`.
pub open spec fn count_prefixed(names: Seq<Seq<char>>, prefix: Seq<char>) -> int
    decreases names.len(),
{
    if names.len() == 0 {
        0
    } else {
        count_prefixed(names.drop_last(), prefix) + if begins_with(names.last(), prefix) { 1int } else { 0 }
    }
}

/// Which saved version to drop to keep at most `cap` whose names begin with `prefix`.
pub fn version_to_drop(names: &Vec<String>, prefix: &str, cap: usize) -> (r: Option<usize>)
    ensures
        match r {
            Some(i) => count_prefixed(strings_view(names@), prefix@) > cap && i < names@.len() && begins_with(names@[i as int]@, prefix@)
                && forall|j: int| 0 <= j < i ==> !begins_with(#[trigger] strings_view(names@)[j], prefix@),
            None => count_prefixed(strings_view(names@), prefix@) <= cap,
        },
{
    let pc = chars_of(prefix);
    let ghost nv = strings_view(names@);
    let mut count: usize = 0;
    let mut first: Option<usize> = None;
    let mut i: usize = 0;
    assert(nv.take(0) =~= Seq::<Seq<char>>::empty());
    while i < names.len()
        invariant
            i <= names.len(),
            pc@ == prefix@,
            nv == strings_view(names@),
            count == count_prefixed(nv.take(i as int), prefix@),
            count <= i,
            match first {
                Some(f) => f < i && begins_with(nv[f as int], prefix@) && forall|j: int| 0 <= j < f ==> !begins_with(#[trigger] nv[j], prefix@),
                None => forall|j: int| 0 <= j < i ==> !begins_with(#[trigger] nv[j], prefix@),
            },
        decreases names.len() - i,
    {
        assert(nv.take(i + 1).drop_last() =~= nv.take(i as int));
        assert(nv.take(i + 1).last() == names@[i as int]@);
        if starts_with(&names[i], &pc) {
            count += 1;
            if first.is_none() {
                first = Some(i);
            }
        }
        i += 1;
    }
    assert(nv.take(i as int) =~= nv);
    if count > cap {
        proof {
            if first is None {
                lemma_count_none(nv, prefix@);
            }
        }
        first
    } else {
        None
    }
}

/// With no name beginning with the prefix, none is counted.
proof fn lemma_count_none(names: Seq<Seq<char>>, prefix: Seq<char>)
    requires
        forall|j: int| 0 <= j < names.len() ==> !begins_with(#[trigger] names[j], prefix),
    ensures
        count_prefixed(names, prefix) == 0,
    decreases names.len(),
{
    if names.len() > 0 {
        assert forall|j: int| 0 <= j < names.drop_last().len() implies !begins_with(#[trigger] names.drop_last()[j], prefix) by {
            assert(names.drop_last()[j] == names[j]);
        }
        lemma_count_none(names.drop_last(), prefix);
        assert(!begins_with(names[names.len() - 1], prefix));
    }
}

/// What a parse decides about the saved versions: the new source's hash,
/// whether the source changed since the last parse (its hash differs), and
/// whether the previously stored source is kept as an auto-save first (only
/// when it changed and the stored source is not blank). On a change the
/// comments and the comment target are cleared.
pub open spec fn parse_step_of(source: Seq<char>, last_hash: u64, stored: Seq<char>) -> (u64, bool, bool) {
    let h = djb2(vstd::utf8::encode_utf8(source));
    let changed = h != last_hash;
    (h, changed, changed && trim(stored).len() != 0)
}

/// The decision a parse makes about versions and comments.
pub fn parse_step(source: &str, last_hash: u64, stored: &str) -> (r: (u64, bool, bool))
    ensures
        r == parse_step_of(source@, last_hash, stored@),
{
    let h = hash_source(source);
    let changed = h != last_hash;
    let t = trimmed(&chars_of(stored));
    let keep = changed && t.as_str().unicode_len() != 0;
    (h, changed, keep)
}

/// The prefix of the names of auto-saved versions.
pub open spec fn autosave_prefix() -> Seq<char> {
    "Auto-save "@
}

/// The name of an auto-saved version made at time `ts`.
pub fn autosave_name(ts: &String) -> (r: String)
    ensures
        r@ == autosave_prefix() + ts@,
{
    let mut out = String::new();
    push_str(&mut out, "Auto-save ");
    push_str(&mut out, ts.as_str());
    out
}

/// Which saved version to drop after an auto-save, to keep at most twenty
/// auto-saves: the oldest one, when there are more.
pub fn autosave_to_drop(names: &Vec<String>) -> (r: Option<usize>)
    ensures
        match r {
            Some(i) => count_prefixed(strings_view(names@), autosave_prefix()) > 20 && i < names@.len()
                && begins_with(names@[i as int]@, autosave_prefix()) && forall|j: int|
                0 <= j < i ==> !begins_with(#[trigger] strings_view(names@)[j], autosave_prefix()),
            None => count_prefixed(strings_view(names@), autosave_prefix()) <= 20,
        },
{
    version_to_drop(names, "Auto-save ", 20)
}

/// The parser status shown to agents: `"no-spec"` when no state was found,
/// else `"ok"` without warnings and `"warnings"` with some.
pub open spec fn parser_status_of(m: MachineView) -> Seq<char> {
    if m.states.len() == 0 {
        "no-spec"@
    } else if m.warnings.len() == 0 {
        "ok"@
    } else {
        "warnings"@
    }
}

/// The parser status of a parse.
pub fn parser_status(parsed: &ParsedMachine) -> (r: String)
    ensures
        r@ == parser_status_of(parsed@),
{
    if parsed.states.len() == 0 {
        String::from_str("no-spec")
    } else if parsed.warnings.len() == 0 {
        String::from_str("ok")
    } else {
        String::from_str("warnings")
    }
}

/// The theme after a click on the toggle: automatic, then light, then dark,
/// then automatic again.
pub open spec fn next_theme_of(theme: Option<Seq<char>>) -> Option<Seq<char>> {
    match theme {
        None => Some("light"@),
        Some(t) => if t == "light"@ {
            Some("dark"@)
        } else {
            None
        },
    }
}

/// The next theme of the toggle.
pub fn next_theme(theme: &Option<String>) -> (r: Option<String>)
    ensures
        crate::model::opt_view(r) == next_theme_of(crate::model::opt_view(*theme)),
{
    match theme {
        None => Some(String::from_str("light")),
        Some(t) => {
            let light = String::from_str("light");
            if *t == light {
                Some(String::from_str("dark"))
            } else {
                None
            }
        },
    }
}

/// A stored theme is taken only when it is `"light"` or `"dark"`.
pub open spec fn stored_theme_of(val: Seq<char>) -> Option<Seq<char>> {
    if val == "light"@ || val == "dark"@ {
        Some(val)
    } else {
        None
    }
}

/// The theme that a stored value names, if any.
pub fn stored_theme(val: &String) -> (r: Option<String>)
    ensures
        crate::model::opt_view(r) == stored_theme_of(val@),
{
    let light = String::from_str("light");
    let dark = String::from_str("dark");
    if *val == light || *val == dark {
        Some(val.clone())
    } else {
        None
    }
}

/// Stepping back undoes a step: a path that holds a state, with one more
/// state walked and then stepped back from, is the path it was.
pub proof fn law_back_undoes_step(chain: Seq<Seq<char>>, next: Seq<char>)
    requires
        chain.len() >= 1,
    ensures
        back_of(chain.push(next)) == chain,
{
    assert(chain.push(next).drop_last() =~= chain);
}

/// Stepping back never leaves the path empty.
pub proof fn law_back_keeps_a_state(chain: Seq<Seq<char>>)
    requires
        chain.len() >= 1,
    ensures
        back_of(chain).len() >= 1,
{
}

/// Three clicks on the theme toggle come back to where they started.
pub proof fn law_theme_cycles_in_three(theme: Option<Seq<char>>)
    requires
        theme is None || theme == Some("light"@) || theme == Some("dark"@),
    ensures
        next_theme_of(next_theme_of(next_theme_of(theme))) == theme,
{
    reveal_strlit("light");
    reveal_strlit("dark");
    assert("dark"@[0] != "light"@[0]);
    assert("dark"@ != "light"@);
}

/// Deleting the comment just added gives back the comments as they were.
pub proof fn law_delete_undoes_submit(
    cs: Seq<NoteView>,
    target: Option<Seq<char>>,
    author: Seq<char>,
    draft: Seq<char>,
    chain: Seq<Seq<char>>,
)
    requires
        trim(draft).len() > 0,
        target is Some,
    ensures
        without(with_comment(cs, target, author, draft, chain), cs.len() as int) == cs,
{
    let c = NoteView { target: target->0, author, text: trim(draft), category: None, chain: Some(chain) };
    assert(cs.push(c).remove(cs.len() as int) =~= cs);
}

/// Dropping the version chosen leaves one fewer whose name begins with the prefix.
pub proof fn law_drop_leaves_one_fewer(names: Seq<Seq<char>>, prefix: Seq<char>, i: int)
    requires
        0 <= i < names.len(),
        begins_with(names[i], prefix),
    ensures
        count_prefixed(names.remove(i), prefix) == count_prefixed(names, prefix) - 1,
    decreases names.len(),
{
    if i < names.len() - 1 {
        law_drop_leaves_one_fewer(names.drop_last(), prefix, i);
        assert(names.remove(i).drop_last() =~= names.drop_last().remove(i));
        assert(names.remove(i).last() == names.last());
    } else {
        assert(names.remove(i) =~= names.drop_last());
    }
}

/// Parsing the same source again changes nothing: the hash it leaves is the
/// one the next parse of that source finds, so no version is auto-saved and
/// no comment is cleared.
pub proof fn law_reparse_changes_nothing(source: Seq<char>, last_hash: u64, stored: Seq<char>, stored_then: Seq<char>)
    ensures
        !parse_step_of(source, parse_step_of(source, last_hash, stored).0, stored_then).1,
        !parse_step_of(source, parse_step_of(source, last_hash, stored).0, stored_then).2,
{
}

/// The actions offered from a state are exactly those that leave it: an
/// action's position is offered if and only if its sources hold the state,
/// each position at most once and in increasing order.
pub proof fn law_offered_actions_leave_the_state(acts: Seq<ActionView>, cur: Seq<char>)
    ensures
        forall|i: int| #[trigger] leaving(acts, cur).contains(i) <==> 0 <= i < acts.len() && acts[i].from.contains(cur),
        forall|a: int, b: int| 0 <= a < b < leaving(acts, cur).len() ==> #[trigger] leaving(acts, cur)[a] < #[trigger] leaving(acts, cur)[b],
        forall|a: int| 0 <= a < leaving(acts, cur).len() ==> 0 <= #[trigger] leaving(acts, cur)[a] < acts.len(),
    decreases acts.len(),
{
    if acts.len() > 0 {
        let pre = acts.drop_last();
        law_offered_actions_leave_the_state(pre, cur);
        let l = leaving(pre, cur);
        let n = acts.len() - 1;
        let r = leaving(acts, cur);
        assert(acts[n] == acts.last());
        assert forall|i: int| 0 <= i < pre.len() implies pre[i] == acts[i] by {
        }
        assert forall|a: int| 0 <= a < r.len() implies 0 <= #[trigger] r[a] < acts.len() by {
            if a < l.len() {
                assert(r[a] == l[a]);
            }
        }
        assert forall|a: int, b: int| 0 <= a < b < r.len() implies #[trigger] r[a] < #[trigger] r[b] by {
            if b < l.len() {
                assert(r[a] == l[a] && r[b] == l[b]);
            } else {
                assert(r[a] == l[a]);
            }
        }
        assert forall|i: int| #[trigger] r.contains(i) <==> 0 <= i < acts.len() && acts[i].from.contains(cur) by {
            if r.contains(i) {
                let k = choose|k: int| 0 <= k < r.len() && r[k] == i;
                if k < l.len() {
                    assert(r[k] == l[k]);
                    assert(l.contains(i));
                }
            }
            if 0 <= i < acts.len() && acts[i].from.contains(cur) {
                if i < n {
                    assert(l.contains(i));
                    let k = choose|k: int| 0 <= k < l.len() && l[k] == i;
                    assert(r[k] == i);
                } else {
                    assert(r[l.len() as int] == i);
                }
            }
        }
    }
}

/// Submitting a comment with a target and some text adds exactly one comment
/// at the end: on that target, signed by the author given, holding the
/// trimmed text and the path walked, with no category; every earlier comment
/// stays as it was. Without a target or with blank text nothing changes.
pub proof fn law_submit_appends_the_comment(
    cs: Seq<NoteView>,
    target: Option<Seq<char>>,
    author: Seq<char>,
    draft: Seq<char>,
    chain: Seq<Seq<char>>,
)
    ensures
        ({
            let r = with_comment(cs, target, author, draft, chain);
            if target is Some && trim(draft).len() > 0 {
                &&& r.len() == cs.len() + 1
                &&& forall|k: int| 0 <= k < cs.len() ==> #[trigger] r[k] == cs[k]
                &&& r[cs.len() as int].target == target->0
                &&& r[cs.len() as int].author == author
                &&& r[cs.len() as int].text == trim(draft)
                &&& r[cs.len() as int].category is None
                &&& r[cs.len() as int].chain == Some(chain)
            } else {
                r == cs
            }
        }),
{
}

/// Deleting comment `idx` removes exactly that one: the comments before it
/// stay in place, those after it move up by one, and there is one fewer. An
/// index past the end changes nothing.
pub proof fn law_delete_removes_the_chosen(cs: Seq<NoteView>, idx: int)
    ensures
        ({
            let r = without(cs, idx);
            if 0 <= idx < cs.len() {
                &&& r.len() == cs.len() - 1
                &&& forall|k: int| 0 <= k < idx ==> #[trigger] r[k] == cs[k]
                &&& forall|k: int| idx <= k < r.len() ==> #[trigger] r[k] == cs[k + 1]
            } else {
                r == cs
            }
        }),
{
}

} // verus!
