//! Lexicographic order on texts and the stable sorting that the parser applies.

use vstd::prelude::*;
use crate::model::{actions_view, strings_view, Action, ActionView};
use crate::text::chars_of;

verus! {

/// Lexicographic order on character sequences (by code point), a proper
/// prefix coming first.
pub open spec fn str_lt(a: Seq<char>, b: Seq<char>) -> bool
    decreases a.len(),
{
    if b.len() == 0 {
        false
    } else if a.len() == 0 {
        true
    } else if a[0] != b[0] {
        a[0] < b[0]
    } else {
        str_lt(a.drop_first(), b.drop_first())
    }
}

/// No text comes before itself.
pub proof fn lemma_lt_irreflexive(a: Seq<char>)
    ensures
        !str_lt(a, a),
    decreases a.len(),
{
    if a.len() > 0 {
        lemma_lt_irreflexive(a.drop_first());
    }
}

/// The order is transitive.
pub proof fn lemma_lt_transitive(a: Seq<char>, b: Seq<char>, c: Seq<char>)
    requires
        str_lt(a, b),
        str_lt(b, c),
    ensures
        str_lt(a, c),
    decreases a.len(),
{
    if a.len() > 0 && b.len() > 0 && c.len() > 0 && a[0] == b[0] && b[0] == c[0] {
        lemma_lt_transitive(a.drop_first(), b.drop_first(), c.drop_first());
    }
}

/// Of two different texts, one comes before the other.
pub proof fn lemma_lt_total(a: Seq<char>, b: Seq<char>)
    requires
        a != b,
    ensures
        str_lt(a, b) || str_lt(b, a),
    decreases a.len(),
{
    if a.len() == 0 && b.len() == 0 {
        assert(a =~= b);
    }
    if a.len() > 0 && b.len() > 0 && a[0] == b[0] {
        if a.drop_first() == b.drop_first() {
            assert(a =~= seq![a[0]] + a.drop_first());
            assert(b =~= seq![b[0]] + b.drop_first());
        }
        lemma_lt_total(a.drop_first(), b.drop_first());
    }
}

/// Whether the keys of `r` never decrease.
pub open spec fn sorted_by<T>(r: Seq<T>, key: spec_fn(T) -> Seq<char>) -> bool {
    forall|i: int, j: int| 0 <= i < j < r.len() ==> !str_lt(#[trigger] key(r[j]), #[trigger] key(r[i]))
}

/// The items whose key is `k`.
pub open spec fn key_is<T>(key: spec_fn(T) -> Seq<char>, k: Seq<char>) -> spec_fn(T) -> bool {
    |x: T| key(x) == k
}

/// Whether `r` holds, for every key, the same items with that key in the same
/// order as `a`.
pub open spec fn same_runs<T>(r: Seq<T>, a: Seq<T>, key: spec_fn(T) -> Seq<char>) -> bool {
    forall|k: Seq<char>| #[trigger] r.filter(key_is(key, k)) == a.filter(key_is(key, k))
}

/// Whether `r` is `a` sorted by key, items with equal keys kept in their order.
pub open spec fn stable_sort_of<T>(r: Seq<T>, a: Seq<T>, key: spec_fn(T) -> Seq<char>) -> bool {
    r.len() == a.len() && sorted_by(r, key) && same_runs(r, a, key)
}

/// Inserting `x` after every item whose key is not above its own keeps the
/// keys in order, and adds `x` to its own key's items as the last one.
proof fn lemma_insert<T>(r: Seq<T>, x: T, p: int, key: spec_fn(T) -> Seq<char>)
    requires
        sorted_by(r, key),
        0 <= p <= r.len(),
        forall|i: int| 0 <= i < p ==> !str_lt(key(x), #[trigger] key(r[i])),
        p < r.len() ==> str_lt(key(x), key(r[p])),
    ensures
        sorted_by(r.insert(p, x), key),
        forall|k: Seq<char>| #[trigger] r.insert(p, x).filter(key_is(key, k)) == r.push(x).filter(key_is(key, k)),
{
    let ins = r.insert(p, x);
    r.insert_ensures(p, x);
    assert forall|j: int| p <= j < r.len() implies str_lt(key(x), #[trigger] key(r[j])) by {
        if j > p {
            if key(r[p]) != key(r[j]) {
                lemma_lt_total(key(r[p]), key(r[j]));
                lemma_lt_transitive(key(x), key(r[p]), key(r[j]));
            }
        }
    }
    assert forall|i: int, j: int| 0 <= i < j < ins.len() implies !str_lt(#[trigger] key(ins[j]), #[trigger] key(ins[i])) by {
        if j == p {
        } else if i == p {
            assert(ins[j] == r[j - 1]);
            assert(str_lt(key(x), key(r[j - 1])));
            if str_lt(key(r[j - 1]), key(x)) {
                lemma_lt_transitive(key(x), key(r[j - 1]), key(x));
                lemma_lt_irreflexive(key(x));
            }
        } else {
            let ii = if i < p { i } else { i - 1 };
            let jj = if j < p { j } else { j - 1 };
            assert(ins[i] == r[ii]);
            assert(ins[j] == r[jj]);
        }
    }
    let front = r.subrange(0, p);
    let back = r.subrange(p, r.len() as int);
    assert(r =~= front + back);
    assert(ins =~= front.push(x) + back);
    assert forall|k: Seq<char>| #[trigger] ins.filter(key_is(key, k)) == r.push(x).filter(key_is(key, k)) by {
        let pr = key_is(key, k);
        Seq::filter_distributes_over_add(front.push(x), back, pr);
        Seq::filter_distributes_over_add(front, back, pr);
        front.lemma_filter_push(x, pr);
        r.lemma_filter_push(x, pr);
        if key(x) == k {
            assert forall|j: int| 0 <= j < back.len() implies !pr(#[trigger] back[j]) by {
                assert(back[j] == r[p + j]);
                assert(str_lt(key(x), key(r[p + j])));
                lemma_lt_irreflexive(key(x));
            }
            back.lemma_all_neg_filter_empty(pr);
            assert(back.filter(pr) =~= Seq::<T>::empty());
            assert(front.filter(pr).push(x) + back.filter(pr) =~= (front.filter(pr) + back.filter(pr)).push(x));
        } else {
        }
    }
}

/// Whether `a` comes before `b`.
pub fn chars_lt(a: &Vec<char>, b: &Vec<char>) -> (r: bool)
    ensures
        r == str_lt(a@, b@),
{
    let mut k: usize = 0;
    assert(a@.skip(0) =~= a@);
    assert(b@.skip(0) =~= b@);
    while k < a.len() && k < b.len() && a[k] == b[k]
        invariant
            k <= a.len(),
            k <= b.len(),
            str_lt(a@, b@) == str_lt(a@.skip(k as int), b@.skip(k as int)),
        decreases a.len() - k,
    {
        assert(a@.skip(k as int).drop_first() =~= a@.skip(k + 1));
        assert(b@.skip(k as int).drop_first() =~= b@.skip(k + 1));
        k += 1;
    }
    if k >= b.len() {
        false
    } else if k >= a.len() {
        true
    } else {
        a[k] < b[k]
    }
}

/// The strings sorted in lexicographic order.
pub fn sort_strings(v: Vec<String>) -> (r: Vec<String>)
    ensures
        stable_sort_of(strings_view(r@), strings_view(v@), |x: Seq<char>| x),
{
    let ghost key = |x: Seq<char>| x;
    let ghost a = strings_view(v@);
    let mut out: Vec<String> = Vec::new();
    let mut i: usize = 0;
    assert(a.take(0) =~= strings_view(out@));
    while i < v.len()
        invariant
            i <= v.len(),
            a == strings_view(v@),
            key == |x: Seq<char>| x,
            out@.len() == i,
            sorted_by(strings_view(out@), key),
            same_runs(strings_view(out@), a.take(i as int), key),
        decreases v.len() - i,
    {
        let x = v[i].clone();
        let xc = chars_of(x.as_str());
        let mut p: usize = 0;
        while p < out.len() && !chars_lt(&xc, &chars_of(out[p].as_str()))
            invariant
                p <= out.len(),
                xc@ == x@,
                forall|m: int| 0 <= m < p ==> !str_lt(x@, #[trigger] strings_view(out@)[m]),
            decreases out.len() - p,
        {
            p += 1;
        }
        let ghost before = strings_view(out@);
        proof {
            lemma_insert(before, x@, p as int, key);
        }
        out.insert(p, x);
        assert(strings_view(out@) =~= before.insert(p as int, x@));
        assert(a.take(i + 1) =~= a.take(i as int).push(x@));
        assert forall|k: Seq<char>| #[trigger] strings_view(out@).filter(key_is(key, k)) == a.take(i + 1).filter(key_is(key, k)) by {
            before.lemma_filter_push(x@, key_is(key, k));
            a.take(i as int).lemma_filter_push(x@, key_is(key, k));
        }
        i += 1;
    }
    assert(a.take(i as int) =~= a);
    out
}

/// The actions sorted by name, actions of equal name kept in their order.
pub fn sort_actions(v: Vec<Action>) -> (r: Vec<Action>)
    ensures
        stable_sort_of(actions_view(r@), actions_view(v@), |x: ActionView| x.name),
{
    let ghost key = |x: ActionView| x.name;
    let ghost a = actions_view(v@);
    let mut v = v;
    let mut out: Vec<Action> = Vec::new();
    let ghost orig = v@;
    let len0 = v.len();
    let mut i: usize = 0;
    assert(a.take(0) =~= actions_view(out@));
    while v.len() > 0
        invariant
            i + v.len() == orig.len(),
            orig.len() == len0,
            v@ == orig.skip(i as int),
            a == actions_view(orig),
            key == |x: ActionView| x.name,
            out@.len() == i,
            sorted_by(actions_view(out@), key),
            same_runs(actions_view(out@), a.take(i as int), key),
        decreases v.len(),
    {
        let x = v.remove(0);
        assert(x == orig[i as int]);
        assert(v@ =~= orig.skip(i + 1));
        let xc = chars_of(x.name.as_str());
        let mut p: usize = 0;
        while p < out.len() && !chars_lt(&xc, &chars_of(out[p].name.as_str()))
            invariant
                p <= out.len(),
                xc@ == x@.name,
                forall|m: int| 0 <= m < p ==> !str_lt(x@.name, (#[trigger] out@[m])@.name),
            decreases out.len() - p,
        {
            p += 1;
        }
        let ghost before = actions_view(out@);
        proof {
            lemma_insert(before, x@, p as int, key);
        }
        out.insert(p, x);
        assert(actions_view(out@) =~= before.insert(p as int, x@));
        assert(a.take(i + 1) =~= a.take(i as int).push(x@));
        assert forall|k: Seq<char>| #[trigger] actions_view(out@).filter(key_is(key, k)) == a.take(i + 1).filter(key_is(key, k)) by {
            before.lemma_filter_push(x@, key_is(key, k));
            a.take(i as int).lemma_filter_push(x@, key_is(key, k));
        }
        i += 1;
    }
    assert(a.take(i as int) =~= a);
    out
}

} // verus!
