//! Operations on free text: collapsing white space, removing block comments,
//! and finding the comment that stands right before a definition.

use vstd::prelude::*;
use crate::chars::{is_space, is_word, word};
use crate::grammar::first_at;
use crate::model::opt_view;
use crate::text::{chars_of, string_of, all_in, lemma_skip_while, occurs_at, skip, skip_while, spaces, Class};

verus! {

/// Every character but white space as a predicate.
pub open spec fn non_spaces() -> spec_fn(char) -> bool {
    |c: char| !is_space(c)
}

/// The white-space separated words of `s` from index `i` on.
pub open spec fn words_from(s: Seq<char>, i: int) -> Seq<Seq<char>>
    decreases s.len() - i,
{
    let n = s.len() as int;
    let a = skip_while(s, i, n, spaces());
    if i < 0 || i >= n || a >= n {
        seq![]
    } else {
        let b = skip_while(s, a, n, non_spaces());
        proof {
            lemma_skip_while(s, i, n, spaces());
            lemma_skip_while(s, a + 1, n, non_spaces());
        }
        seq![s.subrange(a, b)] + words_from(s, b)
    }
}

/// Words joined by single spaces.
pub open spec fn join(ws: Seq<Seq<char>>) -> Seq<char>
    decreases ws.len(),
{
    if ws.len() == 0 {
        seq![]
    } else if ws.len() == 1 {
        ws[0]
    } else {
        ws[0] + seq![' '] + join(ws.drop_first())
    }
}

/// The text with every run of white space made one space and none at either end.
pub open spec fn single_spaced(s: Seq<char>) -> Seq<char> {
    join(words_from(s, 0))
}

/// The joined words, with a separating space in front unless they come first.
pub open spec fn join_tail(ws: Seq<Seq<char>>, first: bool) -> Seq<char> {
    if first {
        join(ws)
    } else if ws.len() > 0 {
        seq![' '] + join(ws)
    } else {
        seq![]
    }
}

proof fn lemma_join_cons(w: Seq<char>, rest: Seq<Seq<char>>)
    ensures
        join(seq![w] + rest) == w + join_tail(rest, false),
{
    let ws = seq![w] + rest;
    assert(ws.drop_first() =~= rest);
    if rest.len() == 0 {
        assert(w + seq![] =~= w);
    } else {
        assert(w + seq![' '] + join(rest) =~= w + (seq![' '] + join(rest)));
    }
}

/// Appends `s[lo..hi]` to `out`.
pub fn extend(out: &mut Vec<char>, s: &Vec<char>, lo: usize, hi: usize)
    requires
        lo <= hi <= s.len(),
    ensures
        final(out)@ == old(out)@ + s@.subrange(lo as int, hi as int),
{
    let mut k = lo;
    while k < hi
        invariant
            lo <= k <= hi <= s.len(),
            out@ == old(out)@ + s@.subrange(lo as int, k as int),
        decreases hi - k,
    {
        out.push(s[k]);
        assert(s@.subrange(lo as int, k + 1) =~= s@.subrange(lo as int, k as int).push(s@[k as int]));
        k += 1;
    }
}

/// The words of `s` joined by single spaces.
pub fn normalize(s: &Vec<char>) -> (r: Vec<char>)
    ensures
        r@ == single_spaced(s@),
{
    let n = s.len();
    let mut out: Vec<char> = Vec::new();
    let mut i: usize = 0;
    let mut first = true;
    loop
        invariant
            i <= n == s.len(),
            single_spaced(s@) == out@ + join_tail(words_from(s@, i as int), first),
        decreases n - i,
    {
        let a = skip(s, i, n, Class::Space);
        if a >= n {
            assert(words_from(s@, i as int) =~= Seq::<Seq<char>>::empty());
            assert(out@ + join_tail(Seq::<Seq<char>>::empty(), first) =~= out@);
            return out;
        }
        proof {
            lemma_skip_while(s@, i as int, n as int, spaces());
        }
        let b = skip(s, a, n, Class::NonSpace);
        proof {
            lemma_skip_while(s@, a + 1, n as int, non_spaces());
            lemma_join_cons(s@.subrange(a as int, b as int), words_from(s@, b as int));
        }
        let ghost rest = words_from(s@, b as int);
        let ghost w = s@.subrange(a as int, b as int);
        assert(words_from(s@, i as int) == seq![w] + rest);
        let ghost before = out@;
        if !first {
            out.push(' ');
        }
        extend(&mut out, s, a, b);
        if first {
            assert(before + join_tail(seq![w] + rest, true) =~= out@ + join_tail(rest, false));
        } else {
            assert(before + join_tail(seq![w] + rest, false) =~= out@ + join_tail(rest, false));
        }
        first = false;
        i = b;
    }
}

/// The first index `k >= i` at which the two characters `x y` occur, or the text length.
pub open spec fn find_pair(s: Seq<char>, i: int, x: char, y: char) -> int {
    first_at(|k: int| occurs_at(s, k, seq![x, y]), i, s.len() as int)
}

/// The text from `pos` on with every `(* ... *)` comment removed; an opening
/// `(*` that is never closed drops only the opener itself.
pub open spec fn strip_from(s: Seq<char>, pos: int) -> Seq<char>
    decreases s.len() - pos,
{
    let n = s.len() as int;
    let st = find_pair(s, pos, '(', '*');
    if pos < 0 || pos > n {
        seq![]
    } else if st >= n {
        s.subrange(pos, n)
    } else {
        let e = find_pair(s, st + 2, '*', ')');
        proof {
            lemma_first_at(|k: int| occurs_at(s, k, seq!['(', '*']), pos, n);
            lemma_first_at(|k: int| occurs_at(s, k, seq!['*', ')']), st + 2, n);
        }
        s.subrange(pos, st) + if e < n {
            strip_from(s, e + 2)
        } else {
            s.subrange(st + 2, n)
        }
    }
}

/// The text with its block comments removed.
pub open spec fn strip_comments(s: Seq<char>) -> Seq<char> {
    strip_from(s, 0)
}

/// What `first_at` returns: the first index at which `m` holds, or `lim`.
pub proof fn lemma_first_at(m: spec_fn(int) -> bool, pos: int, lim: int)
    requires
        pos <= lim,
    ensures
        pos <= first_at(m, pos, lim) <= lim,
        first_at(m, pos, lim) < lim ==> m(first_at(m, pos, lim)),
        forall|k: int| pos <= k < first_at(m, pos, lim) ==> !#[trigger] m(k),
    decreases lim - pos,
{
    if pos < lim && !m(pos) {
        lemma_first_at(m, pos + 1, lim);
    }
}

/// Executable `find_pair`.
pub fn find_two(s: &Vec<char>, i: usize, x: char, y: char) -> (r: usize)
    requires
        i <= s.len(),
    ensures
        r == find_pair(s@, i as int, x, y),
        i <= r <= s.len(),
{
    let n = s.len();
    let mut k = i;
    while k < n && !(k + 1 < n && s[k] == x && s[k + 1] == y)
        invariant
            i <= k <= n == s.len(),
            find_pair(s@, i as int, x, y) == find_pair(s@, k as int, x, y),
        decreases n - k,
    {
        assert(!occurs_at(s@, k as int, seq![x, y])) by {
            if occurs_at(s@, k as int, seq![x, y]) {
                assert(s@.subrange(k as int, k + 2)[0] == x);
                assert(s@.subrange(k as int, k + 2)[1] == y);
            }
        }
        k += 1;
    }
    if k < n {
        assert(s@.subrange(k as int, k + 2) =~= seq![x, y]);
    }
    k
}

/// The text with its block comments removed.
pub fn strip(s: &Vec<char>) -> (r: Vec<char>)
    ensures
        r@ == strip_comments(s@),
{
    let n = s.len();
    let mut out: Vec<char> = Vec::new();
    let mut pos: usize = 0;
    loop
        invariant
            pos <= n == s.len(),
            strip_comments(s@) == out@ + strip_from(s@, pos as int),
        decreases n - pos,
    {
        let st = find_two(s, pos, '(', '*');
        if st >= n {
            extend(&mut out, s, pos, n);
            return out;
        }
        proof {
            lemma_first_at(|k: int| occurs_at(s@, k, seq!['(', '*']), pos as int, n as int);
        }
        let ghost before = out@;
        extend(&mut out, s, pos, st);
        let e = find_two(s, st + 2, '*', ')');
        if e < n {
            proof {
                lemma_first_at(|k: int| occurs_at(s@, k, seq!['*', ')']), st + 2, n as int);
            }
            assert(out@ + strip_from(s@, e + 2) =~= before + strip_from(s@, pos as int));
            pos = e + 2;
        } else {
            extend(&mut out, s, st + 2, n);
            assert(out@ =~= before + strip_from(s@, pos as int));
            return out;
        }
    }
}

/// The largest `k` with `k + 2 <= j` at which `x y` occurs, or `-1`.
pub open spec fn last_pair(s: Seq<char>, j: int, x: char, y: char) -> int
    decreases j,
{
    if j < 2 || j > s.len() {
        -1
    } else if s[j - 2] == x && s[j - 1] == y {
        j - 2
    } else {
        last_pair(s, j - 1, x, y)
    }
}

/// The text of the `(* ... *)` comment that ends right before index `start`
/// (nothing but white space between them): the last `*)` before `start` and
/// the last `(*` before that.
pub open spec fn preceding_comment(s: Seq<char>, start: int) -> Option<Seq<char>> {
    let close = last_pair(s, start, '*', ')');
    let open = last_pair(s, close, '(', '*');
    if close >= 0 && all_in(s, close + 2, start, spaces()) && open >= 0 {
        Some(s.subrange(open + 2, close))
    } else {
        None
    }
}

proof fn lemma_last_pair(s: Seq<char>, j: int, x: char, y: char)
    requires
        j <= s.len(),
    ensures
        last_pair(s, j, x, y) == -1 || (0 <= last_pair(s, j, x, y) && last_pair(s, j, x, y) + 2
            <= j),
    decreases j,
{
    if j >= 2 && !(s[j - 2] == x && s[j - 1] == y) {
        lemma_last_pair(s, j - 1, x, y);
    }
}

/// Executable `last_pair`, with `None` for `-1`.
pub fn rfind_two(s: &Vec<char>, j: usize, x: char, y: char) -> (r: Option<usize>)
    requires
        j <= s.len(),
    ensures
        r matches Some(k) ==> last_pair(s@, j as int, x, y) == k && k + 2 <= j,
        r is None ==> last_pair(s@, j as int, x, y) == -1,
{
    let mut m = j;
    while m >= 2 && !(s[m - 2] == x && s[m - 1] == y)
        invariant
            m <= j <= s.len(),
            last_pair(s@, j as int, x, y) == last_pair(s@, m as int, x, y),
        decreases m,
    {
        m -= 1;
    }
    if m >= 2 {
        Some(m - 2)
    } else {
        None
    }
}

/// Executable `preceding_comment`, as a range of `s`.
pub fn preceding(s: &Vec<char>, start: usize) -> (r: Option<(usize, usize)>)
    requires
        start <= s.len(),
    ensures
        r matches Some((a, b)) ==> a <= b <= s.len() && preceding_comment(s@, start as int) == Some(
            s@.subrange(a as int, b as int),
        ),
        r is None ==> preceding_comment(s@, start as int) is None,
{
    let close = match rfind_two(s, start, '*', ')') {
        Some(c) => c,
        None => return None,
    };
    let k = skip(s, close + 2, start, Class::Space);
    proof {
        lemma_skip_while(s@, close + 2, start as int, spaces());
    }
    if k < start {
        assert(!all_in(s@, close + 2, start as int, spaces()));
        return None;
    }
    match rfind_two(s, close, '(', '*') {
        Some(o) => Some((o + 2, close)),
        None => None,
    }
}

/// Whether a word character stands right before an apostrophe.
pub fn primed(s: &Vec<char>) -> (r: bool)
    ensures
        r == crate::grammar::has_primed(s@),
{
    let n = s.len();
    let mut i: usize = 0;
    while n > 0 && i < n - 1
        invariant
            i <= n == s.len(),
            forall|k: int| 0 <= k < i && k + 1 < n ==> !(#[trigger] is_word(s@[k]) && s@[k + 1] == '\''),
        decreases n - i,
    {
        if word(s[i]) && s[i + 1] == '\'' {
            return true;
        }
        i += 1;
    }
    false
}

/// Whether `=>` occurs.
pub fn arrow(s: &Vec<char>) -> (r: bool)
    ensures
        r == crate::grammar::has_arrow(s@),
{
    let n = s.len();
    let mut i: usize = 0;
    while n > 0 && i < n - 1
        invariant
            i <= n == s.len(),
            forall|k: int| 0 <= k < i && k + 1 < n ==> !(#[trigger] s@[k] == '=' && s@[k + 1] == '>'),
        decreases n - i,
    {
        if s[i] == '=' && s[i + 1] == '>' {
            return true;
        }
        i += 1;
    }
    false
}

/// Collapses every run of white space to one space and trims both ends.
pub fn normalize_ws(input: &str) -> (r: String)
    ensures
        r@ == single_spaced(input@),
{
    let s = chars_of(input);
    let v = normalize(&s);
    assert(v@.subrange(0, v@.len() as int) =~= v@);
    string_of(&v, 0, v.len())
}

/// Removes every `(* ... *)` block comment; an unclosed `(*` loses only the opener.
pub fn strip_block_comments(input: &str) -> (r: String)
    ensures
        r@ == strip_comments(input@),
{
    let s = chars_of(input);
    let v = strip(&s);
    assert(v@.subrange(0, v@.len() as int) =~= v@);
    string_of(&v, 0, v.len())
}

/// The text of the `(* ... *)` comment that ends right before character
/// index `action_start` of `source`, with only white space between.
pub fn extract_preceding_comment(source: &str, action_start: usize) -> (r: Option<String>)
    requires
        action_start <= source@.len(),
    ensures
        opt_view(r) == preceding_comment(source@, action_start as int),
{
    let s = chars_of(source);
    match preceding(&s, action_start) {
        Some((a, b)) => Some(string_of(&s, a, b)),
        None => None,
    }
}

} // verus!
