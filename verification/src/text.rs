//! Positions and runs within a text held as a sequence of characters.

use vstd::prelude::*;
use vstd::std_specs::iter::IteratorSpec;
use crate::chars::{ident, is_ident, is_space, is_word, space, word};

verus! {

/// White space as a predicate.
pub open spec fn spaces() -> spec_fn(char) -> bool {
    |c: char| is_space(c)
}

/// Word characters as a predicate.
pub open spec fn words() -> spec_fn(char) -> bool {
    |c: char| is_word(c)
}

/// ASCII identifier characters as a predicate.
pub open spec fn idents() -> spec_fn(char) -> bool {
    |c: char| is_ident(c)
}

/// Blanks within a line (space and tab) as a predicate.
pub open spec fn blanks() -> spec_fn(char) -> bool {
    |c: char| c == ' ' || c == '\t'
}

/// White space other than the line feed as a predicate.
pub open spec fn inline_spaces() -> spec_fn(char) -> bool {
    |c: char| is_space(c) && c != '\n'
}

/// Every character but `x` as a predicate.
pub open spec fn other_than(x: char) -> spec_fn(char) -> bool {
    |c: char| c != x
}

/// The first index in `[i, hi)` whose character fails `p`, or `hi` when there is none.
pub open spec fn skip_while(s: Seq<char>, i: int, hi: int, p: spec_fn(char) -> bool) -> int
    decreases hi - i,
{
    if i >= hi {
        i
    } else if p(s[i]) {
        skip_while(s, i + 1, hi, p)
    } else {
        i
    }
}

/// The first index of `x` in `[i, hi)`, or `hi` when it does not occur there.
pub open spec fn find_char(s: Seq<char>, i: int, hi: int, x: char) -> int {
    skip_while(s, i, hi, other_than(x))
}

/// The smallest `k` in `[lo, j]` such that every character of `[k, j)` satisfies `p`.
pub open spec fn back_while(s: Seq<char>, lo: int, j: int, p: spec_fn(char) -> bool) -> int
    decreases j - lo,
{
    if j <= lo {
        j
    } else if p(s[j - 1]) {
        back_while(s, lo, j - 1, p)
    } else {
        j
    }
}

/// Whether every character of `[lo, hi)` satisfies `p`.
pub open spec fn all_in(s: Seq<char>, lo: int, hi: int, p: spec_fn(char) -> bool) -> bool {
    forall|k: int| lo <= k < hi ==> #[trigger] p(s[k])
}

/// Whether `lit` occurs in `s` at index `i`.
pub open spec fn occurs_at(s: Seq<char>, i: int, lit: Seq<char>) -> bool {
    0 <= i && i + lit.len() <= s.len() && s.subrange(i, i + lit.len()) == lit
}

/// Whether `i` begins a line: the start of the text or just after a line feed.
pub open spec fn line_start(s: Seq<char>, i: int) -> bool {
    i == 0 || (0 < i <= s.len() && s[i - 1] == '\n')
}

/// The text without the white space at either end.
pub open spec fn trim(s: Seq<char>) -> Seq<char> {
    let a = skip_while(s, 0, s.len() as int, spaces());
    let b = back_while(s, a, s.len() as int, spaces());
    s.subrange(a, b)
}

/// What `skip_while` returns: the end of the run of characters satisfying `p`.
pub proof fn lemma_skip_while(s: Seq<char>, i: int, hi: int, p: spec_fn(char) -> bool)
    requires
        0 <= i <= hi <= s.len(),
    ensures
        i <= skip_while(s, i, hi, p) <= hi,
        all_in(s, i, skip_while(s, i, hi, p), p),
        skip_while(s, i, hi, p) < hi ==> !p(s[skip_while(s, i, hi, p)]),
    decreases hi - i,
{
    if i < hi && p(s[i]) {
        lemma_skip_while(s, i + 1, hi, p);
    }
}

/// A run end is unique: any index with the run property is what `skip_while` returns.
pub proof fn lemma_skip_while_unique(s: Seq<char>, i: int, hi: int, p: spec_fn(char) -> bool, r: int)
    requires
        0 <= i <= r <= hi <= s.len(),
        all_in(s, i, r, p),
        r < hi ==> !p(s[r]),
    ensures
        skip_while(s, i, hi, p) == r,
    decreases hi - i,
{
    if i < r {
        assert(p(s[i]));
        lemma_skip_while_unique(s, i + 1, hi, p, r);
    }
}

/// What `back_while` returns: the start of the run of characters satisfying `p` that ends at `j`.
pub proof fn lemma_back_while(s: Seq<char>, lo: int, j: int, p: spec_fn(char) -> bool)
    requires
        0 <= lo <= j <= s.len(),
    ensures
        lo <= back_while(s, lo, j, p) <= j,
        all_in(s, back_while(s, lo, j, p), j, p),
        back_while(s, lo, j, p) > lo ==> !p(s[back_while(s, lo, j, p) - 1]),
    decreases j - lo,
{
    if lo < j && p(s[j - 1]) {
        lemma_back_while(s, lo, j - 1, p);
    }
}

/// A class of characters that a run may consist of.
pub enum Class {
    Space,
    Word,
    Ident,
    Blank,
    InlineSpace,
    NonSpace,
    Other(char),
}

/// The predicate that a class stands for.
pub open spec fn class_pred(k: Class) -> spec_fn(char) -> bool {
    match k {
        Class::Space => spaces(),
        Class::Word => words(),
        Class::Ident => idents(),
        Class::Blank => blanks(),
        Class::InlineSpace => inline_spaces(),
        Class::NonSpace => crate::prose::non_spaces(),
        Class::Other(x) => other_than(x),
    }
}

/// Whether `c` belongs to the class `k`.
pub fn holds(k: &Class, c: char) -> (r: bool)
    ensures
        r == class_pred(*k)(c),
{
    match k {
        Class::Space => space(c),
        Class::Word => word(c),
        Class::Ident => ident(c),
        Class::Blank => c == ' ' || c == '\t',
        Class::InlineSpace => space(c) && c != '\n',
        Class::NonSpace => !space(c),
        Class::Other(x) => c != *x,
    }
}

/// The end of the run of characters of class `k` that starts at `i` and stops at `hi`.
pub fn skip(s: &Vec<char>, i: usize, hi: usize, k: Class) -> (r: usize)
    requires
        i <= hi <= s.len(),
    ensures
        r == skip_while(s@, i as int, hi as int, class_pred(k)),
        i <= r <= hi,
{
    let mut j = i;
    while j < hi && holds(&k, s[j])
        invariant
            i <= j <= hi <= s.len(),
            skip_while(s@, i as int, hi as int, class_pred(k)) == skip_while(
                s@,
                j as int,
                hi as int,
                class_pred(k),
            ),
        decreases hi - j,
    {
        j += 1;
    }
    j
}

/// The start of the run of characters of class `k` that ends at `j`, going no lower than `lo`.
pub fn back(s: &Vec<char>, lo: usize, j: usize, k: Class) -> (r: usize)
    requires
        lo <= j <= s.len(),
    ensures
        r == back_while(s@, lo as int, j as int, class_pred(k)),
        lo <= r <= j,
{
    let mut m = j;
    while m > lo && holds(&k, s[m - 1])
        invariant
            lo <= m <= j <= s.len(),
            back_while(s@, lo as int, j as int, class_pred(k)) == back_while(
                s@,
                lo as int,
                m as int,
                class_pred(k),
            ),
        decreases m - lo,
    {
        m -= 1;
    }
    m
}

/// Whether `lit` occurs in `s` at index `i`.
pub fn at(s: &Vec<char>, i: usize, lit: &[char]) -> (r: bool)
    ensures
        r == occurs_at(s@, i as int, lit@),
{
    if i > s.len() || lit.len() > s.len() - i {
        return false;
    }
    let mut k: usize = 0;
    while k < lit.len()
        invariant
            i + lit.len() <= s.len(),
            k <= lit.len(),
            forall|m: int| 0 <= m < k ==> s@[i + m] == lit@[m],
        decreases lit.len() - k,
    {
        if s[i + k] != lit[k] {
            assert(s@.subrange(i as int, i + lit@.len())[k as int] != lit@[k as int]);
            return false;
        }
        k += 1;
    }
    assert(s@.subrange(i as int, i + lit@.len()) =~= lit@);
    true
}

/// `String::push`: the string with `c` added at its end.
#[verifier::external_body]
pub(crate) fn push_char(out: &mut String, c: char)
    ensures
        final(out)@ == old(out)@.push(c),
{
    out.push(c)
}

/// The characters of `s[lo..hi]` as a string.
pub fn string_of(s: &Vec<char>, lo: usize, hi: usize) -> (r: String)
    requires
        lo <= hi <= s.len(),
    ensures
        r@ == s@.subrange(lo as int, hi as int),
{
    let mut out = String::new();
    let mut k = lo;
    while k < hi
        invariant
            lo <= k <= hi <= s.len(),
            out@ == s@.subrange(lo as int, k as int),
        decreases hi - k,
    {
        push_char(&mut out, s[k]);
        assert(s@.subrange(lo as int, k + 1) =~= s@.subrange(lo as int, k as int).push(s@[k as int]));
        k += 1;
    }
    out
}

/// The characters of a string, one by one.
pub fn chars_of(s: &str) -> (r: Vec<char>)
    ensures
        r@ == s@,
{
    let mut v: Vec<char> = Vec::new();
    let mut it = s.chars();
    proof {
        vstd::string::axiom_spec_iter(s);
    }
    loop
        invariant
            it.obeys_prophetic_iter_laws(),
            v@ + it.remaining() == s@,
            it.decrease() is Some,
        decreases it.decrease()->0,
    {
        let ghost before = it.remaining();
        match it.next() {
            Some(c) => {
                assert(v@.push(c) + before.drop_first() =~= v@ + before);
                v.push(c);
            },
            None => {
                assert(v@ =~= s@);
                return v;
            },
        }
    }
}

} // verus!
