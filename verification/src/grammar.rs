//! The grammar of the specification subset: where each construct occurs in a
//! text and what it captures. Every recognizer is stated as a spec function of
//! the text and a start index, and each has an executable counterpart.

use vstd::prelude::*;
use crate::chars::{is_word, word};
use crate::text::{at, back, back_while, blanks, find_char, idents, inline_spaces, line_start, occurs_at, skip, skip_while, spaces, words, Class};

verus! {

/// The end of the white space run at `i`.
pub open spec fn sp(s: Seq<char>, i: int) -> int {
    skip_while(s, i, s.len() as int, spaces())
}

/// The end of the word run at `i`.
pub open spec fn wd(s: Seq<char>, i: int) -> int {
    skip_while(s, i, s.len() as int, words())
}

/// The end of the line holding `i`: the next line feed, or the end of the text.
pub open spec fn eol(s: Seq<char>, i: int) -> int {
    find_char(s, i, s.len() as int, '\n')
}

/// Whether index `i` holds a word character.
pub open spec fn word_at(s: Seq<char>, i: int) -> bool {
    0 <= i < s.len() && is_word(s[i])
}

/// Whether index `i` holds the character `c`.
pub open spec fn char_at(s: Seq<char>, i: int, c: char) -> bool {
    0 <= i < s.len() && s[i] == c
}

/// Whether a word starts at `i`: a word character with no word character before it.
pub open spec fn word_start(s: Seq<char>, i: int) -> bool {
    word_at(s, i) && (i == 0 || !is_word(s[i - 1]))
}

/// The first index in `[pos, lim)` at which `m` holds, or `lim`.
pub open spec fn first_at(m: spec_fn(int) -> bool, pos: int, lim: int) -> int
    decreases lim - pos,
{
    if pos >= lim {
        lim
    } else if m(pos) {
        pos
    } else {
        first_at(m, pos + 1, lim)
    }
}

/// The successive, non-overlapping occurrences found by `m` at start indices
/// in `[pos, lim)`, each as (start, end, capture): the search tries each index
/// in turn and resumes at the end of every occurrence it finds.
pub open spec fn scan<T>(m: spec_fn(int) -> Option<(int, T)>, pos: int, lim: int) -> Seq<(int, int, T)>
    decreases lim - pos,
{
    if pos >= lim {
        seq![]
    } else {
        match m(pos) {
            Some((e, t)) => if e > pos {
                seq![(pos, e, t)] + if e < lim {
                    scan(m, e, lim)
                } else {
                    seq![]
                }
            } else {
                scan(m, pos + 1, lim)
            },
            None => scan(m, pos + 1, lim),
        }
    }
}

/// `"text"` at `p` with at least one character between the quotes:
/// the end and the quoted range.
pub open spec fn quoted_at(s: Seq<char>, p: int) -> Option<(int, (int, int))> {
    let h = find_char(s, p + 1, s.len() as int, '"');
    if char_at(s, p, '"') && p + 1 < s.len() && s[p + 1] != '"' && h < s.len() {
        Some((h + 1, (p + 1, h)))
    } else {
        None
    }
}

/// The module header `---- MODULE Name ----` starting a line at `p`:
/// the end and the range of the name.
pub open spec fn module_header_at(s: Seq<char>, p: int) -> Option<(int, (int, int))> {
    let n = s.len() as int;
    let a = p + 4;
    let b = sp(s, a);
    let c = b + 6;
    let d = sp(s, c);
    let e = skip_while(s, d, n, idents());
    let f = sp(s, e);
    if line_start(s, p) && occurs_at(s, p, seq!['-', '-', '-', '-']) && b > a && occurs_at(
        s,
        b,
        seq!['M', 'O', 'D', 'U', 'L', 'E'],
    ) && d > c && e > d && f > e && occurs_at(s, f, seq!['-', '-', '-', '-']) {
        Some((f + 4, (d, e)))
    } else {
        None
    }
}

/// Executable `quoted_at`.
pub fn quoted(s: &Vec<char>, p: usize) -> (r: Option<(usize, usize, usize)>)
    ensures
        r matches Some((e, a, b)) ==> a <= b <= s.len(),
        r matches Some((e, a, b)) ==> quoted_at(s@, p as int) == Some((e as int, (a as int, b as int))),
        r is None ==> quoted_at(s@, p as int) is None,
{
    if p < s.len() && s[p] == '"' && p + 1 < s.len() && s[p + 1] != '"' {
        let h = skip(s, p + 1, s.len(), Class::Other('"'));
        if h < s.len() {
            return Some((h + 1, p + 1, h));
        }
    }
    None
}

/// Executable `module_header_at`.
pub fn module_header(s: &Vec<char>, p: usize) -> (r: Option<(usize, usize, usize)>)
    ensures
        r matches Some((e, a, b)) ==> a <= b <= s.len(),
        r matches Some((e, a, b)) ==> module_header_at(s@, p as int) == Some((e as int, (a as int, b as int))),
        r is None ==> module_header_at(s@, p as int) is None,
{
    let n = s.len();
    if p > n || !(p == 0 || s[p - 1] == '\n') || !at(s, p, &['-', '-', '-', '-']) {
        return None;
    }
    let a = p + 4;
    let b = skip(s, a, n, Class::Space);
    if !(b > a && at(s, b, &['M', 'O', 'D', 'U', 'L', 'E'])) {
        return None;
    }
    let c = b + 6;
    let d = skip(s, c, n, Class::Space);
    if d <= c {
        return None;
    }
    let e = skip(s, d, n, Class::Ident);
    if e <= d {
        return None;
    }
    let f = skip(s, e, n, Class::Space);
    if f > e && at(s, f, &['-', '-', '-', '-']) {
        Some((f + 4, d, e))
    } else {
        None
    }
}

/// A set definition `Name == { ... }` at `p`, the name a word run starting at
/// `p` and the body reaching the first closing brace: the end, the name range
/// and the body range.
pub open spec fn set_def_at(s: Seq<char>, p: int) -> Option<(int, (int, int, int, int))> {
    let n = s.len() as int;
    let e = wd(s, p);
    let f = sp(s, e);
    let g = sp(s, f + 2);
    let h = find_char(s, g + 1, n, '}');
    if word_at(s, p) && occurs_at(s, f, seq!['=', '=']) && char_at(s, g, '{') && h < n {
        Some((h + 1, (p, e, g + 1, h)))
    } else {
        None
    }
}

/// A definition head `Name ==` starting a line at `q`: the end of the line,
/// the name range and where the rest of the line (after blanks) begins.
pub open spec fn def_head_at(s: Seq<char>, q: int) -> Option<(int, (int, int, int))> {
    let n = s.len() as int;
    let e = wd(s, q);
    let f = sp(s, e);
    let g = skip_while(s, f + 2, n, blanks());
    if line_start(s, q) && word_at(s, q) && occurs_at(s, f, seq!['=', '=']) {
        Some((eol(s, g), (q, e, g)))
    } else {
        None
    }
}

/// Where the visible text of the line holding `p` ends: the line end with any
/// trailing white space taken off.
pub open spec fn line_content_end(s: Seq<char>, p: int) -> int {
    back_while(s, p, eol(s, p), spaces())
}

/// A one-line comment `(* ... *)` starting a line at `p` whose line ends with
/// `*)`, followed after white space by a definition head on a later line:
/// the end, the comment range, the name range and the rest-of-line start.
pub open spec fn commented_head_at(s: Seq<char>, p: int) -> Option<
    (int, (Option<(int, int)>, int, int, int)),
> {
    let t = line_content_end(s, p);
    let m = sp(s, t);
    if line_start(s, p) && occurs_at(s, p, seq!['(', '*']) && t >= p + 4 && s[t - 2] == '*'
        && s[t - 1] == ')' && char_at(s, m - 1, '\n') {
        match def_head_at(s, m) {
            Some((end, (q, e, g))) => Some((end, (Some((p + 2, t - 2)), q, e, g))),
            None => None,
        }
    } else {
        None
    }
}

/// An action definition at `p`, with its one-line comment when one stands
/// right above it, else the bare definition head.
pub open spec fn action_head_at(s: Seq<char>, p: int) -> Option<
    (int, (Option<(int, int)>, int, int, int)),
> {
    match commented_head_at(s, p) {
        Some(r) => Some(r),
        None => match def_head_at(s, p) {
            Some((end, (q, e, g))) => Some((end, (None::<(int, int)>, q, e, g))),
            None => None,
        },
    }
}

/// The module end `====` starting a line at `p`, with nothing but white space
/// up to the end of its line.
pub open spec fn module_end_at(s: Seq<char>, p: int) -> bool {
    let a = skip_while(s, p + 4, s.len() as int, inline_spaces());
    line_start(s, p) && occurs_at(s, p, seq!['=', '=', '=', '=']) && (a == s.len() || s[a]
        == '\n')
}

/// Where the module ends: the first module end line, or the end of the text.
pub open spec fn module_end(s: Seq<char>) -> int {
    first_at(|p: int| module_end_at(s, p), 0, s.len() as int)
}

/// A state variable starting at word start `p`: a word of at least six
/// characters ending in `State`. Returns the end of the word.
pub open spec fn state_var_at(s: Seq<char>, p: int) -> Option<int> {
    let e = wd(s, p);
    if word_at(s, p) && e - p >= 6 && occurs_at(s, e - 5, seq!['S', 't', 'a', 't', 'e']) {
        Some(e)
    } else {
        None
    }
}

/// `xState = "V"` at word start `p`: the end and the range of `V`.
pub open spec fn from_eq_at(s: Seq<char>, p: int) -> Option<(int, (int, int))> {
    match state_var_at(s, p) {
        Some(e) => {
            let f = sp(s, e);
            if word_start(s, p) && char_at(s, f, '=') {
                quoted_at(s, sp(s, f + 1))
            } else {
                None
            }
        },
        None => None,
    }
}

/// `xState \in { ... }` at word start `p`: the end and the range inside the braces.
pub open spec fn from_in_at(s: Seq<char>, p: int) -> Option<(int, (int, int))> {
    match state_var_at(s, p) {
        Some(e) => {
            let n = s.len() as int;
            let f = sp(s, e);
            let g = sp(s, f + 3);
            let h = find_char(s, g + 1, n, '}');
            if word_start(s, p) && occurs_at(s, f, seq!['\\', 'i', 'n']) && char_at(s, g, '{')
                && g + 1 < n && s[g + 1] != '}' && h < n {
                Some((h + 1, (g + 1, h)))
            } else {
                None
            }
        },
        None => None,
    }
}

/// `xState' = ...` or `xState' \in ...` at word start `p`: the end and the
/// range of the rest of the line after the operator (past an opening brace
/// when more follows it on that line).
pub open spec fn to_at(s: Seq<char>, p: int) -> Option<(int, (int, int))> {
    match state_var_at(s, p) {
        Some(e) => {
            let n = s.len() as int;
            let f = sp(s, e + 1);
            let op = if char_at(s, f, '=') {
                f + 1
            } else {
                f + 3
            };
            let g = sp(s, op);
            if word_start(s, p) && char_at(s, e, '\'') && (char_at(s, f, '=') || occurs_at(
                s,
                f,
                seq!['\\', 'i', 'n'],
            )) && g < n {
                if s[g] == '{' && g + 1 < n && s[g + 1] != '\n' {
                    Some((eol(s, g + 1), (g + 1, eol(s, g + 1))))
                } else {
                    Some((eol(s, g), (g, eol(s, g))))
                }
            } else {
                None
            }
        },
        None => None,
    }
}

/// `Init == xState = "V"` starting a line at `p`: the end and the range of `V`.
pub open spec fn init_at(s: Seq<char>, p: int) -> Option<(int, (int, int))> {
    let a = sp(s, p + 4);
    let b = sp(s, a + 2);
    if line_start(s, p) && occurs_at(s, p, seq!['I', 'n', 'i', 't']) && occurs_at(
        s,
        a,
        seq!['=', '='],
    ) {
        match state_var_at(s, b) {
            Some(e) => {
                let f = sp(s, e);
                if char_at(s, f, '=') {
                    quoted_at(s, sp(s, f + 1))
                } else {
                    None
                }
            },
            None => None,
        }
    } else {
        None
    }
}

/// `Next ==` starting a line at `p`.
pub open spec fn next_at(s: Seq<char>, p: int) -> bool {
    line_start(s, p) && occurs_at(s, p, seq!['N', 'e', 'x', 't']) && occurs_at(
        s,
        sp(s, p + 4),
        seq!['=', '='],
    )
}

/// Whether a word character stands right before an apostrophe (a primed variable).
pub open spec fn has_primed(s: Seq<char>) -> bool {
    exists|i: int| 0 <= i && i + 1 < s.len() && #[trigger] is_word(s[i]) && s[i + 1] == '\''
}

/// Whether `=>` occurs in the text.
pub open spec fn has_arrow(s: Seq<char>) -> bool {
    exists|i: int| 0 <= i && i + 1 < s.len() && #[trigger] s[i] == '=' && s[i + 1] == '>'
}

/// Executable `set_def_at`.
pub fn set_def(s: &Vec<char>, p: usize) -> (r: Option<(usize, (usize, usize, usize, usize))>)
    ensures
        r matches Some((e, (a, b, c, d))) ==> set_def_at(s@, p as int) == Some(
            (e as int, (a as int, b as int, c as int, d as int)),
        ),
        r is None ==> set_def_at(s@, p as int) is None,
{
    let n = s.len();
    if p >= n || !word(s[p]) {
        return None;
    }
    let e = skip(s, p, n, Class::Word);
    let f = skip(s, e, n, Class::Space);
    if !at(s, f, &['=', '=']) {
        return None;
    }
    let g = skip(s, f + 2, n, Class::Space);
    if !(g < n && s[g] == '{') {
        return None;
    }
    let h = skip(s, g + 1, n, Class::Other('}'));
    if h < n {
        Some((h + 1, (p, e, g + 1, h)))
    } else {
        None
    }
}

/// Executable `def_head_at`.
pub fn def_head(s: &Vec<char>, q: usize) -> (r: Option<(usize, (usize, usize, usize))>)
    ensures
        r matches Some((end, (a, b, c))) ==> def_head_at(s@, q as int) == Some(
            (end as int, (a as int, b as int, c as int)),
        ),
        r is None ==> def_head_at(s@, q as int) is None,
{
    let n = s.len();
    if q >= n || !(q == 0 || s[q - 1] == '\n') || !word(s[q]) {
        return None;
    }
    let e = skip(s, q, n, Class::Word);
    let f = skip(s, e, n, Class::Space);
    if !at(s, f, &['=', '=']) {
        return None;
    }
    let g = skip(s, f + 2, n, Class::Blank);
    let end = skip(s, g, n, Class::Other('\n'));
    Some((end, (q, e, g)))
}

/// Executable `action_head_at`.
pub fn action_head(s: &Vec<char>, p: usize) -> (r: Option<
    (usize, (Option<(usize, usize)>, usize, usize, usize)),
>)
    ensures
        r matches Some((end, (c, a, b, g))) ==> action_head_at(s@, p as int) == Some(
            (
                end as int,
                (
                    match c {
                        Some((x, y)) => Some((x as int, y as int)),
                        None => None,
                    },
                    a as int,
                    b as int,
                    g as int,
                ),
            ),
        ),
        r is None ==> action_head_at(s@, p as int) is None,
{
    let n = s.len();
    if p < n && (p == 0 || s[p - 1] == '\n') && at(s, p, &['(', '*']) {
        let l = skip(s, p, n, Class::Other('\n'));
        let t = back(s, p, l, Class::Space);
        if t - p >= 4 && s[t - 2] == '*' && s[t - 1] == ')' {
            let m = skip(s, t, n, Class::Space);
            if m >= 1 && m - 1 < n && s[m - 1] == '\n' {
                match def_head(s, m) {
                    Some((end, (q, e, g))) => {
                        return Some((end, (Some((p + 2, t - 2)), q, e, g)));
                    },
                    None => {},
                }
            }
        }
    }
    assert(commented_head_at(s@, p as int) is None);
    match def_head(s, p) {
        Some((end, (q, e, g))) => Some((end, (None, q, e, g))),
        None => None,
    }
}

/// Executable `module_end_at`.
pub fn module_end_here(s: &Vec<char>, p: usize) -> (r: bool)
    ensures
        r == module_end_at(s@, p as int),
{
    let n = s.len();
    if p > n || !(p == 0 || s[p - 1] == '\n') || !at(s, p, &['=', '=', '=', '=']) {
        return false;
    }
    let a = skip(s, p + 4, n, Class::InlineSpace);
    a == n || s[a] == '\n'
}

/// Executable `module_end`.
pub fn find_module_end(s: &Vec<char>) -> (r: usize)
    ensures
        r == module_end(s@),
        r <= s.len(),
{
    let n = s.len();
    let mut p: usize = 0;
    while p < n && !module_end_here(s, p)
        invariant
            p <= n == s.len(),
            module_end(s@) == first_at(|q: int| module_end_at(s@, q), p as int, n as int),
        decreases n - p,
    {
        p += 1;
    }
    p
}

/// Executable `state_var_at`.
pub fn state_var(s: &Vec<char>, p: usize) -> (r: Option<usize>)
    ensures
        r matches Some(e) ==> state_var_at(s@, p as int) == Some(e as int),
        r is None ==> state_var_at(s@, p as int) is None,
{
    let n = s.len();
    if p >= n || !word(s[p]) {
        return None;
    }
    let e = skip(s, p, n, Class::Word);
    if e - p >= 6 && at(s, e - 5, &['S', 't', 'a', 't', 'e']) {
        Some(e)
    } else {
        None
    }
}

/// Whether a word starts at `p`.
pub fn starts_word(s: &Vec<char>, p: usize) -> (r: bool)
    ensures
        r == word_start(s@, p as int),
{
    p < s.len() && word(s[p]) && (p == 0 || !word(s[p - 1]))
}

/// Executable `from_eq_at`.
pub fn from_eq(s: &Vec<char>, p: usize) -> (r: Option<(usize, usize, usize)>)
    ensures
        r matches Some((e, a, b)) ==> from_eq_at(s@, p as int) == Some((e as int, (a as int, b as int))),
        r is None ==> from_eq_at(s@, p as int) is None,
{
    let n = s.len();
    match state_var(s, p) {
        Some(e) => {
            let f = skip(s, e, n, Class::Space);
            if starts_word(s, p) && f < n && s[f] == '=' {
                let g = skip(s, f + 1, n, Class::Space);
                quoted(s, g)
            } else {
                None
            }
        },
        None => None,
    }
}

/// Executable `from_in_at`.
pub fn from_in(s: &Vec<char>, p: usize) -> (r: Option<(usize, usize, usize)>)
    ensures
        r matches Some((e, a, b)) ==> from_in_at(s@, p as int) == Some((e as int, (a as int, b as int))),
        r is None ==> from_in_at(s@, p as int) is None,
{
    let n = s.len();
    match state_var(s, p) {
        Some(e) => {
            let f = skip(s, e, n, Class::Space);
            if !(starts_word(s, p) && at(s, f, &['\\', 'i', 'n'])) {
                return None;
            }
            let g = skip(s, f + 3, n, Class::Space);
            if !(g < n && s[g] == '{' && g + 1 < n && s[g + 1] != '}') {
                return None;
            }
            let h = skip(s, g + 1, n, Class::Other('}'));
            if h < n {
                Some((h + 1, g + 1, h))
            } else {
                None
            }
        },
        None => None,
    }
}

/// Executable `to_at`.
pub fn to_target(s: &Vec<char>, p: usize) -> (r: Option<(usize, usize, usize)>)
    ensures
        r matches Some((e, a, b)) ==> to_at(s@, p as int) == Some((e as int, (a as int, b as int))),
        r is None ==> to_at(s@, p as int) is None,
{
    let n = s.len();
    match state_var(s, p) {
        Some(e) => {
            if !(starts_word(s, p) && e < n && s[e] == '\'') {
                return None;
            }
            let f = skip(s, e + 1, n, Class::Space);
            let op = if f < n && s[f] == '=' {
                f + 1
            } else if at(s, f, &['\\', 'i', 'n']) {
                f + 3
            } else {
                return None;
            };
            let g = skip(s, op, n, Class::Space);
            if g >= n {
                return None;
            }
            if s[g] == '{' && g + 1 < n && s[g + 1] != '\n' {
                let l = skip(s, g + 1, n, Class::Other('\n'));
                Some((l, g + 1, l))
            } else {
                let l = skip(s, g, n, Class::Other('\n'));
                Some((l, g, l))
            }
        },
        None => None,
    }
}

/// Executable `init_at`.
pub fn init_here(s: &Vec<char>, p: usize) -> (r: Option<(usize, usize, usize)>)
    ensures
        r matches Some((e, a, b)) ==> a <= b <= s.len(),
        r matches Some((e, a, b)) ==> init_at(s@, p as int) == Some((e as int, (a as int, b as int))),
        r is None ==> init_at(s@, p as int) is None,
{
    let n = s.len();
    if p > n || !(p == 0 || s[p - 1] == '\n') || !at(s, p, &['I', 'n', 'i', 't']) {
        return None;
    }
    let a = skip(s, p + 4, n, Class::Space);
    if !at(s, a, &['=', '=']) {
        return None;
    }
    let b = skip(s, a + 2, n, Class::Space);
    match state_var(s, b) {
        Some(e) => {
            let f = skip(s, e, n, Class::Space);
            if f < n && s[f] == '=' {
                let g = skip(s, f + 1, n, Class::Space);
                quoted(s, g)
            } else {
                None
            }
        },
        None => None,
    }
}

/// Executable `next_at`.
pub fn next_here(s: &Vec<char>, p: usize) -> (r: bool)
    ensures
        r == next_at(s@, p as int),
{
    let n = s.len();
    if p > n || !(p == 0 || s[p - 1] == '\n') || !at(s, p, &['N', 'e', 'x', 't']) {
        return false;
    }
    let a = skip(s, p + 4, n, Class::Space);
    at(s, a, &['=', '='])
}

/// The constructs whose capture is a single range.
pub enum Pattern {
    Quoted,
    FromEq,
    FromIn,
    To,
}

/// The recognizer that a pattern stands for, over the text `s`.
pub open spec fn pattern_at(k: Pattern, s: Seq<char>) -> spec_fn(int) -> Option<(int, (int, int))> {
    match k {
        Pattern::Quoted => |p: int| quoted_at(s, p),
        Pattern::FromEq => |p: int| from_eq_at(s, p),
        Pattern::FromIn => |p: int| from_in_at(s, p),
        Pattern::To => |p: int| to_at(s, p),
    }
}

/// All occurrences of the pattern in `s`.
pub open spec fn pattern_scan(k: Pattern, s: Seq<char>) -> Seq<(int, int, (int, int))> {
    scan(pattern_at(k, s), 0, s.len() as int)
}

/// An occurrence with its start, end and captured range, as integers.
pub open spec fn hit(t: (usize, usize, usize, usize)) -> (int, int, (int, int)) {
    (t.0 as int, t.1 as int, (t.2 as int, t.3 as int))
}

/// Executable `pattern_at`.
pub fn pattern_here(k: &Pattern, s: &Vec<char>, p: usize) -> (r: Option<(usize, usize, usize)>)
    ensures
        r matches Some((e, a, b)) ==> pattern_at(*k, s@)(p as int) == Some((e as int, (a as int, b as int))),
        r is None ==> pattern_at(*k, s@)(p as int) is None,
{
    match k {
        Pattern::Quoted => quoted(s, p),
        Pattern::FromEq => from_eq(s, p),
        Pattern::FromIn => from_in(s, p),
        Pattern::To => to_target(s, p),
    }
}

/// All occurrences of the pattern in `s`, in order.
pub fn find_all(k: Pattern, s: &Vec<char>) -> (r: Vec<(usize, usize, usize, usize)>)
    ensures
        r@.map_values(|t: (usize, usize, usize, usize)| hit(t)) == pattern_scan(k, s@),
{
    let n = s.len();
    let mut r: Vec<(usize, usize, usize, usize)> = Vec::new();
    let mut pos: usize = 0;
    while pos < n
        invariant
            pos <= n == s.len(),
            pattern_scan(k, s@) == r@.map_values(|t: (usize, usize, usize, usize)| hit(t)) + scan(
                pattern_at(k, s@),
                pos as int,
                n as int,
            ),
        decreases n - pos,
    {
        let ghost before = r@;
        match pattern_here(&k, s, pos) {
            Some((e, a, b)) => {
                if e > pos {
                    r.push((pos, e, a, b));
                    assert(r@.map_values(|t: (usize, usize, usize, usize)| hit(t)) =~= before.map_values(
                        |t: (usize, usize, usize, usize)| hit(t),
                    ).push((pos as int, e as int, (a as int, b as int))));
                    if e < n {
                        pos = e;
                    } else {
                        pos = n;
                    }
                } else {
                    pos += 1;
                }
            },
            None => {
                pos += 1;
            },
        }
    }
    assert(r@.map_values(|t: (usize, usize, usize, usize)| hit(t)) + Seq::<(int, int, (int, int))>::empty()
        =~= r@.map_values(|t: (usize, usize, usize, usize)| hit(t)));
    r
}

/// All set definitions in `s`.
pub open spec fn set_scan(s: Seq<char>) -> Seq<(int, int, (int, int, int, int))> {
    scan(|p: int| set_def_at(s, p), 0, s.len() as int)
}

/// A set definition with its start, end, name range and body range, as integers.
pub open spec fn set_hit(t: (usize, usize, (usize, usize, usize, usize))) -> (int, int, (int, int, int, int)) {
    (t.0 as int, t.1 as int, (t.2.0 as int, t.2.1 as int, t.2.2 as int, t.2.3 as int))
}

/// All set definitions in `s`, in order.
pub fn find_sets(s: &Vec<char>) -> (r: Vec<(usize, usize, (usize, usize, usize, usize))>)
    ensures
        r@.map_values(|t: (usize, usize, (usize, usize, usize, usize))| set_hit(t)) == set_scan(s@),
{
    let n = s.len();
    let mut r: Vec<(usize, usize, (usize, usize, usize, usize))> = Vec::new();
    let mut pos: usize = 0;
    while pos < n
        invariant
            pos <= n == s.len(),
            set_scan(s@) == r@.map_values(|t: (usize, usize, (usize, usize, usize, usize))| set_hit(t)) + scan(
                |p: int| set_def_at(s@, p),
                pos as int,
                n as int,
            ),
        decreases n - pos,
    {
        let ghost before = r@;
        match set_def(s, pos) {
            Some((e, c)) => {
                if e > pos {
                    r.push((pos, e, c));
                    assert(r@.map_values(|t: (usize, usize, (usize, usize, usize, usize))| set_hit(t)) =~= before.map_values(
                        |t: (usize, usize, (usize, usize, usize, usize))| set_hit(t),
                    ).push(set_hit((pos, e, c))));
                    if e < n {
                        pos = e;
                    } else {
                        pos = n;
                    }
                } else {
                    pos += 1;
                }
            },
            None => {
                pos += 1;
            },
        }
    }
    assert(r@.map_values(|t: (usize, usize, (usize, usize, usize, usize))| set_hit(t)) + Seq::<(int, int, (int, int, int, int))>::empty()
        =~= r@.map_values(|t: (usize, usize, (usize, usize, usize, usize))| set_hit(t)));
    r
}

/// A definition head: optional comment range, name range, rest-of-line start.
pub type HeadCaps = (Option<(int, int)>, int, int, int);

/// The definition heads in `s` that start before index `lim`.
pub open spec fn head_scan(s: Seq<char>, lim: int) -> Seq<(int, int, HeadCaps)> {
    scan(|p: int| action_head_at(s, p), 0, lim)
}

/// An optional range as integers.
pub open spec fn opt_range(c: Option<(usize, usize)>) -> Option<(int, int)> {
    match c {
        Some((x, y)) => Some((x as int, y as int)),
        None => None,
    }
}

/// A definition head with its start and end, as integers.
pub open spec fn head_hit(t: (usize, usize, (Option<(usize, usize)>, usize, usize, usize))) -> (int, int, HeadCaps) {
    (t.0 as int, t.1 as int, (opt_range(t.2.0), t.2.1 as int, t.2.2 as int, t.2.3 as int))
}

/// The definition heads starting before `lim`, in order.
pub fn find_heads(s: &Vec<char>, lim: usize) -> (r: Vec<(usize, usize, (Option<(usize, usize)>, usize, usize, usize))>)
    requires
        lim <= s.len(),
    ensures
        r@.map_values(|t: (usize, usize, (Option<(usize, usize)>, usize, usize, usize))| head_hit(t)) == head_scan(s@, lim as int),
{
    let mut r: Vec<(usize, usize, (Option<(usize, usize)>, usize, usize, usize))> = Vec::new();
    let mut pos: usize = 0;
    while pos < lim
        invariant
            pos <= lim <= s.len(),
            head_scan(s@, lim as int) == r@.map_values(|t: (usize, usize, (Option<(usize, usize)>, usize, usize, usize))| head_hit(t)) + scan(
                |p: int| action_head_at(s@, p),
                pos as int,
                lim as int,
            ),
        decreases lim - pos,
    {
        let ghost before = r@;
        match action_head(s, pos) {
            Some((e, c)) => {
                if e > pos {
                    r.push((pos, e, c));
                    assert(r@.map_values(|t: (usize, usize, (Option<(usize, usize)>, usize, usize, usize))| head_hit(t)) =~= before.map_values(
                        |t: (usize, usize, (Option<(usize, usize)>, usize, usize, usize))| head_hit(t),
                    ).push(head_hit((pos, e, c))));
                    if e < lim {
                        pos = e;
                    } else {
                        pos = lim;
                    }
                } else {
                    pos += 1;
                }
            },
            None => {
                pos += 1;
            },
        }
    }
    assert(r@.map_values(|t: (usize, usize, (Option<(usize, usize)>, usize, usize, usize))| head_hit(t)) + Seq::<(int, int, HeadCaps)>::empty()
        =~= r@.map_values(|t: (usize, usize, (Option<(usize, usize)>, usize, usize, usize))| head_hit(t)));
    r
}

/// A quoted string lies within the text, its content range inside it.
pub proof fn lemma_quoted_range(s: Seq<char>, p: int)
    requires
        quoted_at(s, p) is Some,
    ensures
        0 <= p < quoted_at(s, p).unwrap().1.0 <= quoted_at(s, p).unwrap().1.1 < quoted_at(s, p).unwrap().0 <= s.len(),
{
    crate::text::lemma_skip_while(s, p + 1, s.len() as int, crate::text::other_than('"'));
}

/// Each occurrence that `scan` reports is one that `m` finds at its start,
/// the starts lie in `[pos, lim)`, and each occurrence ends before the next begins.
pub proof fn lemma_scan<T>(m: spec_fn(int) -> Option<(int, T)>, pos: int, lim: int)
    ensures
        forall|i: int|
            0 <= i < scan(m, pos, lim).len() ==> {
                let h = #[trigger] scan(m, pos, lim)[i];
                &&& m(h.0) == Some((h.1, h.2))
                &&& pos <= h.0 < lim
                &&& h.0 < h.1
            },
        forall|i: int, j: int|
            0 <= i < j < scan(m, pos, lim).len() ==> #[trigger] scan(m, pos, lim)[i].1 <= #[trigger] scan(
                m,
                pos,
                lim,
            )[j].0,
    decreases lim - pos,
{
    if pos < lim {
        match m(pos) {
            Some((e, t)) => {
                if e > pos {
                    if e < lim {
                        lemma_scan(m, e, lim);
                        let rest = scan(m, e, lim);
                        assert(scan(m, pos, lim) == seq![(pos, e, t)] + rest);
                        assert forall|i: int, j: int|
                            0 <= i < j < scan(m, pos, lim).len() implies #[trigger] scan(m, pos, lim)[i].1
                            <= #[trigger] scan(m, pos, lim)[j].0 by {
                            if i > 0 {
                                assert(scan(m, pos, lim)[i] == rest[i - 1]);
                            }
                            assert(scan(m, pos, lim)[j] == rest[j - 1]);
                        }
                        assert forall|i: int| 0 <= i < scan(m, pos, lim).len() implies {
                            let h = #[trigger] scan(m, pos, lim)[i];
                            &&& m(h.0) == Some((h.1, h.2))
                            &&& pos <= h.0 < lim
                            &&& h.0 < h.1
                        } by {
                            if i > 0 {
                                assert(scan(m, pos, lim)[i] == rest[i - 1]);
                            }
                        }
                    } else {
                        assert(scan(m, pos, lim) =~= seq![(pos, e, t)]);
                    }
                } else {
                    lemma_scan(m, pos + 1, lim);
                }
            },
            None => {
                lemma_scan(m, pos + 1, lim);
            },
        }
    }
}

/// The ranges a set definition captures lie within the text.
pub proof fn lemma_set_range(s: Seq<char>, p: int)
    requires
        set_def_at(s, p) is Some,
    ensures
        ({
            let c = set_def_at(s, p).unwrap().1;
            0 <= c.0 <= c.1 <= s.len() && 0 <= c.2 <= c.3 <= s.len()
        }),
{
    let n = s.len() as int;
    crate::text::lemma_skip_while(s, p, n, words());
    let e = wd(s, p);
    crate::text::lemma_skip_while(s, e, n, spaces());
    let f = sp(s, e);
    crate::text::lemma_skip_while(s, f + 2, n, spaces());
    let g = sp(s, f + 2);
    crate::text::lemma_skip_while(s, g + 1, n, crate::text::other_than('}'));
}

/// The range a single-range pattern captures lies within the text.
pub proof fn lemma_pattern_range(k: Pattern, s: Seq<char>, p: int)
    requires
        pattern_at(k, s)(p) is Some,
    ensures
        ({
            let c = pattern_at(k, s)(p).unwrap().1;
            0 <= c.0 <= c.1 <= s.len()
        }),
{
    let n = s.len() as int;
    match k {
        Pattern::Quoted => {
            lemma_quoted_range(s, p);
        },
        Pattern::FromEq => {
            let e = wd(s, p);
            let f = sp(s, e);
            lemma_quoted_range(s, sp(s, f + 1));
        },
        Pattern::FromIn => {
            let e = wd(s, p);
            let f = sp(s, e);
            let g = sp(s, f + 3);
            crate::text::lemma_skip_while(s, g + 1, n, crate::text::other_than('}'));
        },
        Pattern::To => {
            let e = wd(s, p);
            let f = sp(s, e + 1);
            let op = if char_at(s, f, '=') {
                f + 1
            } else {
                f + 3
            };
            let g = sp(s, op);
            crate::text::lemma_skip_while(s, p, n, words());
            crate::text::lemma_skip_while(s, e + 1, n, spaces());
            if op <= n {
                crate::text::lemma_skip_while(s, op, n, spaces());
            }
            if g < n {
                crate::text::lemma_skip_while(s, g, n, crate::text::other_than('\n'));
                if g + 1 < n {
                    crate::text::lemma_skip_while(s, g + 1, n, crate::text::other_than('\n'));
                }
            }
        },
    }
}

/// The ranges a definition head captures lie within the text, the name
/// before the rest of the line.
pub proof fn lemma_head_range(s: Seq<char>, p: int)
    requires
        action_head_at(s, p) is Some,
    ensures
        ({
            let c = action_head_at(s, p).unwrap().1;
            &&& 0 <= c.1 <= c.2 <= c.3 <= s.len()
            &&& c.0 matches Some(r) ==> 0 <= r.0 <= r.1 <= s.len()
        }),
{
    let n = s.len() as int;
    match commented_head_at(s, p) {
        Some(_) => {
            let t = line_content_end(s, p);
            crate::text::lemma_skip_while(s, p, n, crate::text::other_than('\n'));
            crate::text::lemma_back_while(s, p, eol(s, p), spaces());
            let m = sp(s, t);
            lemma_def_head_range(s, m);
        },
        None => {
            lemma_def_head_range(s, p);
        },
    }
}

proof fn lemma_def_head_range(s: Seq<char>, q: int)
    requires
        def_head_at(s, q) is Some,
    ensures
        ({
            let c = def_head_at(s, q).unwrap().1;
            0 <= c.0 <= c.1 <= c.2 <= s.len()
        }),
{
    let n = s.len() as int;
    crate::text::lemma_skip_while(s, q, n, words());
    let e = wd(s, q);
    crate::text::lemma_skip_while(s, e, n, spaces());
    let f = sp(s, e);
    crate::text::lemma_skip_while(s, f + 2, n, blanks());
}

} // verus!
