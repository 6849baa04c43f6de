//! Texts the studio hands out: the source's hash, numbers written out in
//! decimal, edge labels summarised, timestamps, and the bundles of source and
//! stakeholder comments that go to a language model or an agent.

use vstd::prelude::*;
use crate::model::{opt_view, strings_view};
use crate::text::{chars_of, push_char};

verus! {

/// The interface notes that close the agent bundle.
pub const AGENT_QUERY_INSTRUCTIONS: &'static str = r#"# TLA+ Process Studio — Agent Interface v1

This app is 100% client-side. No server, no API, no auth.
All persistent state lives in localStorage. Nothing is ever transmitted over the network.
You are the LLM. The user brings you here. Your job is to iterate the model.

─────────────────────────────────────────
## STABLE SELECTORS (use these, not CSS classes)
─────────────────────────────────────────

  data-field="spec"           The TLA+ source editor (textarea)
  data-action="parse"         Parse button — triggers re-parse + diagram update
  data-action="save-snapshot" Save current spec+comments as a named version
  data-parser-status          On the app root — values: "ok" | "warnings" | "no-spec"
  data-module                 On the app root — current parsed module name
  data-state-count            On the app root — number of parsed states (string)

─────────────────────────────────────────
## READ API
─────────────────────────────────────────

// Full TLA+ specification (persisted, survives reload)
localStorage.getItem("tla_studio_source")

// All stakeholder comments
JSON.parse(localStorage.getItem("tla_studio_comments") || "[]")
// Shape: [{target: "StateName", author: "Name", text: "...", category?: "...", chain?: [...]}]

// Named snapshots (version history)
JSON.parse(localStorage.getItem("tla_studio_snapshots") || "[]")
// Shape: [{name: "...", source: "...", comments: [...], timestamp: ms, hash: n}]

// Editor live value (may differ from localStorage if not yet parsed)
document.querySelector("[data-field='spec']").value

// Parser status of the current loaded spec
document.querySelector("[data-parser-status]").dataset.parserStatus
// → "ok" | "warnings" | "no-spec"

─────────────────────────────────────────
## WRITE API
─────────────────────────────────────────

// Write a new or revised TLA+ spec into the editor
// (MUST use the native setter pattern — direct .value = does not fire Yew events)
const ta = document.querySelector("[data-field='spec']");
const setter = Object.getOwnPropertyDescriptor(
  window.HTMLTextAreaElement.prototype, 'value'
).set;
setter.call(ta, newSpecString);
ta.dispatchEvent(new Event('input', { bubbles: true }));

// Trigger parse + diagram update
document.querySelector("[data-action='parse']").click();

// Save current state as a named snapshot
document.querySelector("[data-action='save-snapshot']").click();
// (Snapshot name comes from the header input; leave it to default to the module name)

─────────────────────────────────────────
## RECOMMENDED AGENT LOOP
─────────────────────────────────────────

  STEP 1 — Navigate to the page URL
            If the URL contains a fragment (#share=...) it has preloaded spec+comments — let it settle before reading
  STEP 2 — Read spec:     localStorage.getItem("tla_studio_source")
  STEP 3 — Read comments: JSON.parse(localStorage.getItem("tla_studio_comments") || "[]")
            Group by `target` (state name) to understand which states have feedback
  STEP 4 — Analyze. Generate a revised TLA+ spec that addresses the comments.
            Follow the parser rules below exactly or the diagram will not render.
            Write ONLY the TLA+ module. No markdown fences. No explanatory prose.
  STEP 5 — Write revised spec using the native setter pattern (see WRITE API above)
  STEP 6 — Click parse:   document.querySelector("[data-action='parse']").click()
            Wait for the DOM to settle (100–300ms)
  STEP 7 — Check status:  document.querySelector("[data-parser-status]").dataset.parserStatus
            If "warnings": read the warnings banner text, fix the spec, repeat from STEP 5.
            If "ok": proceed to STEP 8.
            If "no-spec": the write failed — try the setter pattern again.
  STEP 8 — Save (optional): document.querySelector("[data-action='save-snapshot']").click()
  STEP 9 — Report to user. Repeat from STEP 2 if further iteration is requested.

─────────────────────────────────────────
## PARSER RULES (must follow or diagram breaks)
─────────────────────────────────────────

  - Exactly ONE variable ending in `State` (e.g. processState)
  - Exactly ONE state set ending in `States` or `Stages`
  - State names: quoted PascalCase strings, no spaces (e.g. "InReview")
  - Every transition must be exactly two conjuncts:
        ActionName ==
            /\ varState = "FromState"
            /\ varState' = "ToState"
  - Must include: Init == varState = "InitialState"
  - Must include: Next == \/ Action1 \/ Action2 ...
  - Invariants must use `=>` (e.g. varState \in AllStates => TRUE)
    - No IF/THEN/ELSE, CASE, LET/IN, UNCHANGED, or quantifiers in transition bodies
    - No helper operators using `==`
    - No text before the module and no text after `====`"#;

/// Appends the text `s`.
pub fn push_str(out: &mut String, s: &str)
    ensures
        final(out)@ == old(out)@ + s@,
{
    let cs = chars_of(s);
    let ghost start = out@;
    let mut i: usize = 0;
    while i < cs.len()
        invariant
            i <= cs.len(),
            cs@ == s@,
            out@ == start + cs@.take(i as int),
        decreases cs.len() - i,
    {
        push_char(out, cs[i]);
        assert(cs@.take(i + 1) =~= cs@.take(i as int).push(cs@[i as int]));
        i += 1;
    }
    assert(cs@.take(i as int) =~= cs@);
}

/// The djb2 hash of bytes: 5381, then each byte in turn added to 33 times
/// the hash so far, modulo 2^64.
pub open spec fn djb2(bytes: Seq<u8>) -> u64
    decreases bytes.len(),
{
    if bytes.len() == 0 {
        5381
    } else {
        ((djb2(bytes.drop_last()) as int * 33 + bytes.last() as int) % 0x1_0000_0000_0000_0000) as u64
    }
}

/// The djb2 hash of the source's UTF-8 bytes.
pub fn hash_source(s: &str) -> (r: u64)
    ensures
        r == djb2(vstd::utf8::encode_utf8(s@)),
{
    let bytes = s.as_bytes();
    let ghost bs = bytes@;
    let mut h: u64 = 5381;
    let mut i: usize = 0;
    assert(bs.take(0) =~= Seq::<u8>::empty());
    while i < bytes.len()
        invariant
            i <= bytes.len(),
            bs == bytes@,
            h == djb2(bs.take(i as int)),
        decreases bytes.len() - i,
    {
        let b = bytes[i];
        assert(bs.take(i + 1).drop_last() =~= bs.take(i as int));
        assert(bs.take(i + 1).last() == b);
        let m = h.wrapping_mul(33);
        let next = m.wrapping_add(b as u64);
        proof {
            let big: int = 0x1_0000_0000_0000_0000;
            assert(m == (h as int * 33) % big);
            vstd::arithmetic::div_mod::lemma_add_mod_noop(h as int * 33, b as int, big);
            vstd::arithmetic::div_mod::lemma_small_mod(b as nat, big as nat);
            vstd::arithmetic::div_mod::lemma_mod_bound(h as int * 33, big);
            if m as int + b as int > u64::MAX {
                vstd::arithmetic::div_mod::lemma_mod_self_0(big);
                vstd::arithmetic::div_mod::lemma_mod_sub_multiples_vanish(m as int + b as int, big);
                vstd::arithmetic::div_mod::lemma_small_mod((m as int + b as int - big) as nat, big as nat);
            } else {
                vstd::arithmetic::div_mod::lemma_small_mod((m as int + b as int) as nat, big as nat);
            }
        }
        h = next;
        i += 1;
    }
    assert(bs.take(i as int) =~= bs);
    h
}

/// The decimal digit `d`.
pub open spec fn digit(d: int) -> char {
    if d == 0 {
        '0'
    } else if d == 1 {
        '1'
    } else if d == 2 {
        '2'
    } else if d == 3 {
        '3'
    } else if d == 4 {
        '4'
    } else if d == 5 {
        '5'
    } else if d == 6 {
        '6'
    } else if d == 7 {
        '7'
    } else if d == 8 {
        '8'
    } else {
        '9'
    }
}

/// The decimal digits of `n`, most significant first, without leading zeros.
pub open spec fn digits(n: nat) -> Seq<char>
    decreases n,
{
    if n < 10 {
        seq![digit(n as int)]
    } else {
        digits(n / 10).push(digit((n % 10) as int))
    }
}

/// The decimal digits of `n`, padded with zeros in front to at least `w` digits.
pub open spec fn padded(n: nat, w: nat) -> Seq<char> {
    let d = digits(n);
    if d.len() < w {
        Seq::new((w - d.len()) as nat, |i: int| '0') + d
    } else {
        d
    }
}

fn digit_char(d: u64) -> (c: char)
    requires
        d < 10,
    ensures
        c == digit(d as int),
{
    if d == 0 {
        '0'
    } else if d == 1 {
        '1'
    } else if d == 2 {
        '2'
    } else if d == 3 {
        '3'
    } else if d == 4 {
        '4'
    } else if d == 5 {
        '5'
    } else if d == 6 {
        '6'
    } else if d == 7 {
        '7'
    } else if d == 8 {
        '8'
    } else {
        '9'
    }
}

/// Appends the decimal digits of `n`.
fn push_digits(out: &mut String, n: u64)
    ensures
        final(out)@ == old(out)@ + digits(n as nat),
    decreases n,
{
    if n >= 10 {
        push_digits(out, n / 10);
    }
    push_char(out, digit_char(n % 10));
    assert(n < 10 ==> n % 10 == n);
}

/// `n` written in decimal.
pub fn decimal(n: u64) -> (r: String)
    ensures
        r@ == digits(n as nat),
{
    let mut out = String::new();
    push_digits(&mut out, n);
    assert(out@ =~= digits(n as nat));
    out
}

/// `n` written in decimal, padded with zeros to at least `w` digits.
pub fn decimal_padded(n: u64, w: usize) -> (r: String)
    ensures
        r@ == padded(n as nat, w as nat),
{
    let d = decimal(n);
    let len = d.as_str().unicode_len();
    let mut out = String::new();
    if len < w {
        let mut k: usize = 0;
        while k < w - len
            invariant
                k <= w - len,
                len == digits(n as nat).len(),
                out@ == Seq::new(k as nat, |i: int| '0'),
            decreases w - len - k,
        {
            push_char(&mut out, '0');
            assert(out@ =~= Seq::new((k + 1) as nat, |i: int| '0'));
            k += 1;
        }
    }
    push_str(&mut out, d.as_str());
    assert(out@ =~= padded(n as nat, w as nat));
    out
}

/// The labels joined by `sep`.
pub open spec fn joined(ls: Seq<Seq<char>>, sep: Seq<char>) -> Seq<char>
    decreases ls.len(),
{
    if ls.len() == 0 {
        seq![]
    } else if ls.len() == 1 {
        ls[0]
    } else {
        joined(ls.drop_last(), sep) + sep + ls.last()
    }
}

/// The label of a group of edges: up to two labels joined by a middle dot,
/// else the first two and how many more there are.
pub open spec fn label_summary(ls: Seq<Seq<char>>) -> Seq<char> {
    if ls.len() <= 2 {
        joined(ls, " \u{b7} "@)
    } else {
        ls[0] + " \u{b7} "@ + ls[1] + " +"@ + digits((ls.len() - 2) as nat)
    }
}

/// Summarises the labels of a group of edges.
pub fn summarize_edge_labels(labels: &Vec<String>) -> (r: String)
    ensures
        r@ == label_summary(strings_view(labels@)),
{
    let ghost ls = strings_view(labels@);
    let mut out = String::new();
    if labels.len() <= 2 {
        let mut i: usize = 0;
        assert(joined(ls.take(0), " \u{b7} "@) =~= out@);
        while i < labels.len()
            invariant
                i <= labels.len(),
                labels.len() <= 2,
                ls == strings_view(labels@),
                out@ == joined(ls.take(i as int), " \u{b7} "@),
            decreases labels.len() - i,
        {
            assert(ls.take(i + 1).drop_last() =~= ls.take(i as int));
            assert(ls.take(i + 1).last() == labels@[i as int]@);
            if i > 0 {
                push_str(&mut out, " \u{b7} ");
            } else {
                assert(ls.take(1)[0] == labels@[0]@);
            }
            push_str(&mut out, labels[i].as_str());
            proof {
                if i == 0 {
                    assert(out@ =~= ls.take(1)[0]);
                }
            }
            i += 1;
        }
        assert(ls.take(i as int) =~= ls);
    } else {
        push_str(&mut out, labels[0].as_str());
        push_str(&mut out, " \u{b7} ");
        push_str(&mut out, labels[1].as_str());
        push_str(&mut out, " +");
        let more = decimal((labels.len() - 2) as u64);
        push_str(&mut out, more.as_str());
    }
    out
}

/// `"YYYY-MM-DD HH:MM"` for a date whose month is counted from zero.
pub open spec fn timestamp(year: nat, month0: nat, day: nat, hours: nat, minutes: nat) -> Seq<char> {
    padded(year, 4) + "-"@ + padded(month0 + 1, 2) + "-"@ + padded(day, 2) + " "@ + padded(hours, 2) + ":"@
        + padded(minutes, 2)
}

/// Writes a date and time as `"YYYY-MM-DD HH:MM"`; the month is counted from zero.
pub fn format_timestamp(year: u32, month0: u32, day: u32, hours: u32, minutes: u32) -> (r: String)
    requires
        month0 < u32::MAX,
    ensures
        r@ == timestamp(year as nat, month0 as nat, day as nat, hours as nat, minutes as nat),
{
    let mut out = decimal_padded(year as u64, 4);
    push_str(&mut out, "-");
    push_str(&mut out, decimal_padded((month0 + 1) as u64, 2).as_str());
    push_str(&mut out, "-");
    push_str(&mut out, decimal_padded(day as u64, 2).as_str());
    push_str(&mut out, " ");
    push_str(&mut out, decimal_padded(hours as u64, 2).as_str());
    push_str(&mut out, ":");
    push_str(&mut out, decimal_padded(minutes as u64, 2).as_str());
    out
}

/// What `str::to_uppercase` gives for a text.
pub uninterp spec fn uppercase_of(s: Seq<char>) -> Seq<char>;

/// `str::to_uppercase`: the text in upper case, by Unicode's case mapping.
#[verifier::external_body]
fn to_upper(s: &String) -> (r: String)
    ensures
        r@ == uppercase_of(s@),
{
    s.to_uppercase()
}

/// A stakeholder's comment on a state: who wrote it, what it says, an
/// optional category, and the path of states walked to reach it.
#[derive(Clone, Debug, PartialEq, Eq)]
pub struct UserComment {
    pub target: String,
    pub author: String,
    pub text: String,
    pub category: Option<String>,
    pub chain: Option<Vec<String>>,
}

/// The value of a `UserComment`.
pub struct NoteView {
    pub target: Seq<char>,
    pub author: Seq<char>,
    pub text: Seq<char>,
    pub category: Option<Seq<char>>,
    pub chain: Option<Seq<Seq<char>>>,
}

impl View for UserComment {
    type V = NoteView;

    open spec fn view(&self) -> NoteView {
        NoteView {
            target: self.target@,
            author: self.author@,
            text: self.text@,
            category: opt_view(self.category),
            chain: match self.chain {
                Some(c) => Some(strings_view(c@)),
                None => None,
            },
        }
    }
}

/// The values of the comments.
pub open spec fn notes_view(cs: Seq<UserComment>) -> Seq<NoteView> {
    cs.map_values(|c: UserComment| c@)
}

/// One comment as a line: its category in upper case in brackets when it
/// has one, its author in parentheses, then its text.
pub open spec fn comment_line(c: NoteView) -> Seq<char> {
    match c.category {
        Some(cat) => "  ["@ + uppercase_of(cat) + "] ("@ + c.author + ") "@ + c.text + "\n"@,
        None => "  ("@ + c.author + ") "@ + c.text + "\n"@,
    }
}

/// The lines of the comments on `state`, in comment order.
pub open spec fn lines_for(cs: Seq<NoteView>, state: Seq<char>) -> Seq<char>
    decreases cs.len(),
{
    if cs.len() == 0 {
        seq![]
    } else {
        lines_for(cs.drop_last(), state) + if cs.last().target == state {
            comment_line(cs.last())
        } else {
            seq![]
        }
    }
}

/// Whether some comment is on `state`.
pub open spec fn has_notes(cs: Seq<NoteView>, state: Seq<char>) -> bool {
    exists|i: int| 0 <= i < cs.len() && (#[trigger] cs[i]).target == state
}

/// For each state that has comments, in state order: `lead`, the state in
/// brackets, then its comments' lines.
pub open spec fn sections(states: Seq<Seq<char>>, cs: Seq<NoteView>, lead: Seq<char>) -> Seq<char>
    decreases states.len(),
{
    if states.len() == 0 {
        seq![]
    } else {
        let st = states.last();
        sections(states.drop_last(), cs, lead) + if has_notes(cs, st) {
            lead + "["@ + st + "]\n"@ + lines_for(cs, st)
        } else {
            seq![]
        }
    }
}

/// Appends the lines of the comments on `state`; says whether there were any.
fn push_state_notes(out: &mut String, comments: &Vec<UserComment>, state: &String, lead: &str) -> (r: bool)
    ensures
        r == has_notes(notes_view(comments@), state@),
        final(out)@ == old(out)@ + if r {
            lead@ + "["@ + state@ + "]\n"@ + lines_for(notes_view(comments@), state@)
        } else {
            seq![]
        },
{
    let ghost cs = notes_view(comments@);
    let mut any = false;
    let mut i: usize = 0;
    while i < comments.len()
        invariant
            i <= comments.len(),
            cs == notes_view(comments@),
            any == exists|j: int| 0 <= j < i && (#[trigger] cs[j]).target == state@,
        decreases comments.len() - i,
    {
        if comments[i].target == *state {
            any = true;
            assert(cs[i as int].target == state@);
        }
        i += 1;
    }
    if !any {
        return false;
    }
    push_str(out, lead);
    push_str(out, "[");
    push_str(out, state.as_str());
    push_str(out, "]\n");
    let ghost head = out@;
    let mut k: usize = 0;
    assert(cs.take(0) =~= Seq::<NoteView>::empty());
    while k < comments.len()
        invariant
            k <= comments.len(),
            cs == notes_view(comments@),
            out@ == head + lines_for(cs.take(k as int), state@),
        decreases comments.len() - k,
    {
        let c = &comments[k];
        assert(cs.take(k + 1).drop_last() =~= cs.take(k as int));
        assert(cs.take(k + 1).last() == c@);
        if c.target == *state {
            match &c.category {
                Some(cat) => {
                    push_str(out, "  [");
                    let up = to_upper(cat);
                    push_str(out, up.as_str());
                    push_str(out, "] (");
                },
                None => {
                    push_str(out, "  (");
                },
            }
            push_str(out, c.author.as_str());
            push_str(out, ") ");
            push_str(out, c.text.as_str());
            push_str(out, "\n");
        }
        k += 1;
    }
    assert(cs.take(k as int) =~= cs);
    true
}

/// The targets of the comments that are none of `states`, each once, in the
/// order of the first comment on it.
pub open spec fn strays(states: Seq<Seq<char>>, cs: Seq<NoteView>) -> Seq<Seq<char>>
    decreases cs.len(),
{
    if cs.len() == 0 {
        seq![]
    } else {
        let p = strays(states, cs.drop_last());
        let t = cs.last().target;
        if states.contains(t) || p.contains(t) {
            p
        } else {
            p.push(t)
        }
    }
}

/// All the comments, section by section: first the listed states in order,
/// then the other targets in the order of their first comment.
pub open spec fn all_sections(states: Seq<Seq<char>>, cs: Seq<NoteView>, lead: Seq<char>) -> Seq<char> {
    sections(states, cs, lead) + sections(strays(states, cs), cs, lead)
}

/// The targets of the comments that are none of the listed states.
fn stray_targets(comments: &Vec<UserComment>, states: &Vec<String>) -> (r: Vec<String>)
    ensures
        strings_view(r@) == strays(strings_view(states@), notes_view(comments@)),
{
    let ghost sv = strings_view(states@);
    let ghost cs = notes_view(comments@);
    let mut out: Vec<String> = Vec::new();
    let mut i: usize = 0;
    assert(cs.take(0) =~= Seq::<NoteView>::empty());
    assert(strings_view(out@) =~= Seq::<Seq<char>>::empty());
    while i < comments.len()
        invariant
            i <= comments.len(),
            sv == strings_view(states@),
            cs == notes_view(comments@),
            strings_view(out@) == strays(sv, cs.take(i as int)),
        decreases comments.len() - i,
    {
        assert(cs.take(i + 1).drop_last() =~= cs.take(i as int));
        assert(cs.take(i + 1).last() == comments@[i as int]@);
        let t = &comments[i].target;
        if !crate::parser::contains_string(states, t) && !crate::parser::contains_string(&out, t) {
            let ghost before = out@;
            out.push(t.clone());
            assert(strings_view(out@) =~= strings_view(before).push(t@));
        }
        i += 1;
    }
    assert(cs.take(i as int) =~= cs);
    out
}

/// Appends the sections of all the comments.
fn push_all_sections(out: &mut String, comments: &Vec<UserComment>, states: &Vec<String>, lead: &str)
    ensures
        final(out)@ == old(out)@ + all_sections(strings_view(states@), notes_view(comments@), lead@),
{
    push_sections(out, comments, states, lead);
    let others = stray_targets(comments, states);
    push_sections(out, comments, &others, lead);
}

/// Every comment gets a section: its target is a listed state or one of the
/// other targets, and the other targets are each listed once and none of them
/// is a listed state.
pub proof fn law_every_comment_has_a_section(states: Seq<Seq<char>>, cs: Seq<NoteView>)
    ensures
        forall|i: int| 0 <= i < cs.len() ==> states.contains(#[trigger] cs[i].target) || strays(states, cs).contains(cs[i].target),
        forall|t: Seq<char>| #[trigger] strays(states, cs).contains(t) ==> !states.contains(t) && has_notes(cs, t),
        strays(states, cs).no_duplicates(),
    decreases cs.len(),
{
    if cs.len() > 0 {
        let pre = cs.drop_last();
        law_every_comment_has_a_section(states, pre);
        let p = strays(states, pre);
        let t = cs.last().target;
        let l = cs.len() - 1;
        assert(cs[l] == cs.last());
        let q = strays(states, cs);
        assert forall|i: int| 0 <= i < cs.len() implies states.contains(#[trigger] cs[i].target) || q.contains(cs[i].target) by {
            if i < l {
                assert(pre[i] == cs[i]);
                if p.contains(cs[i].target) {
                    let k = choose|k: int| 0 <= k < p.len() && p[k] == cs[i].target;
                    assert(q[k] == p[k]);
                }
            } else if !states.contains(t) {
                if p.contains(t) {
                    let k = choose|k: int| 0 <= k < p.len() && p[k] == t;
                    assert(q[k] == p[k]);
                } else {
                    assert(q[p.len() as int] == t);
                }
            }
        }
        assert forall|x: Seq<char>| #[trigger] q.contains(x) implies !states.contains(x) && has_notes(cs, x) by {
            let k = choose|k: int| 0 <= k < q.len() && q[k] == x;
            if k < p.len() {
                assert(q[k] == p[k]);
                assert(p.contains(x));
                let i = choose|i: int| 0 <= i < pre.len() && (#[trigger] pre[i]).target == x;
                assert(cs[i] == pre[i]);
            } else {
                assert(cs[l].target == x);
            }
        }
        if !(states.contains(t) || p.contains(t)) {
            assert forall|a: int, b: int| 0 <= a < q.len() && 0 <= b < q.len() && a != b implies q[a] != q[b] by {
                if a < p.len() && b < p.len() {
                } else if a < p.len() {
                    assert(p.contains(p[a]));
                } else {
                    assert(p.contains(p[b]));
                }
            }
        }
    }
}

/// Appends the sections of every state's comments.
fn push_sections(out: &mut String, comments: &Vec<UserComment>, states: &Vec<String>, lead: &str)
    ensures
        final(out)@ == old(out)@ + sections(strings_view(states@), notes_view(comments@), lead@),
{
    let ghost sv = strings_view(states@);
    let ghost start = out@;
    let mut i: usize = 0;
    assert(sections(sv.take(0), notes_view(comments@), lead@) =~= Seq::<char>::empty());
    while i < states.len()
        invariant
            i <= states.len(),
            sv == strings_view(states@),
            out@ == start + sections(sv.take(i as int), notes_view(comments@), lead@),
        decreases states.len() - i,
    {
        assert(sv.take(i + 1).drop_last() =~= sv.take(i as int));
        assert(sv.take(i + 1).last() == states@[i as int]@);
        push_state_notes(out, comments, &states[i], lead);
        i += 1;
    }
    assert(sv.take(i as int) =~= sv);
}

/// The source and all the stakeholders' comments, state by state (the
/// listed states first, then any other target), as one text.
pub open spec fn comments_bundle(source: Seq<char>, cs: Seq<NoteView>, states: Seq<Seq<char>>) -> Seq<char> {
    "=== TLA+ Source ===\n\n"@ + source + "\n\n=== Stakeholder Comments ===\n"@ + all_sections(states, cs, "\n"@)
        + (if cs.len() == 0 { "\n(No comments collected yet)\n"@ } else { seq![] }) + "\n=== End ===\n"@
}

/// Bundles the source with all the stakeholders' comments, state by state.
pub fn build_state_comments_bundle(source: &str, comments: &Vec<UserComment>, states: &Vec<String>) -> (r: String)
    ensures
        r@ == comments_bundle(source@, notes_view(comments@), strings_view(states@)),
{
    let mut out = String::new();
    push_str(&mut out, "=== TLA+ Source ===\n\n");
    push_str(&mut out, source);
    push_str(&mut out, "\n\n=== Stakeholder Comments ===\n");
    push_all_sections(&mut out, comments, states, "\n");
    if comments.len() == 0 {
        push_str(&mut out, "\n(No comments collected yet)\n");
    }
    push_str(&mut out, "\n=== End ===\n");
    out
}

/// The revision prompt followed by the source and all the comments.
pub open spec fn export_text(source: Seq<char>, cs: Seq<NoteView>, states: Seq<Seq<char>>, prompt: Seq<char>) -> Seq<char> {
    prompt + "=== TLA+ Source ===\n\n"@ + source + "\n\n=== Stakeholder Comments ===\n"@ + all_sections(states, cs, "\n"@)
        + (if cs.len() == 0 {
        "\n(No comments collected yet \u{2014} the spec may still need review)\n"@
    } else {
        seq![]
    }) + "\n=== End ===\n"@
}

/// Bundles the revision prompt with the source and the comments.
pub fn build_export(source: &str, comments: &Vec<UserComment>, states: &Vec<String>, iter_prompt: &str) -> (r: String)
    ensures
        r@ == export_text(source@, notes_view(comments@), strings_view(states@), iter_prompt@),
{
    let mut out = String::new();
    push_str(&mut out, iter_prompt);
    push_str(&mut out, "=== TLA+ Source ===\n\n");
    push_str(&mut out, source);
    push_str(&mut out, "\n\n=== Stakeholder Comments ===\n");
    push_all_sections(&mut out, comments, states, "\n");
    if comments.len() == 0 {
        push_str(&mut out, "\n(No comments collected yet \u{2014} the spec may still need review)\n");
    }
    push_str(&mut out, "\n=== End ===\n");
    out
}

/// The state of the studio as an agent reads it: the hash and counts, the
/// source, all the comments state by state, and the interface notes.
pub open spec fn agent_meta(source: Seq<char>, cs: Seq<NoteView>, states: Seq<Seq<char>>, hash: nat) -> Seq<char> {
    "<!-- AGENT-READABLE: TLA+ Process Studio State -->\n"@ + "<!-- spec_hash: "@ + digits(hash)
        + " | state_count: "@ + digits(states.len()) + " | comment_count: "@ + digits(cs.len()) + " -->\n"@
        + "<!-- Read instructions: see 'Agent query instructions' section -->\n\n"@ + "=== SPEC ===\n"@ + source
        + "\n=== COMMENTS ===\n"@ + all_sections(states, cs, seq![]) + "\n=== AGENT QUERY INSTRUCTIONS ===\n"@
        + AGENT_QUERY_INSTRUCTIONS@ + "\n=== END ===\n"@
}

/// Bundles the studio's state for an agent.
pub fn build_agent_meta(source: &str, comments: &Vec<UserComment>, states: &Vec<String>, source_hash: u64) -> (r: String)
    ensures
        r@ == agent_meta(source@, notes_view(comments@), strings_view(states@), source_hash as nat),
{
    let mut meta = String::new();
    push_str(&mut meta, "<!-- AGENT-READABLE: TLA+ Process Studio State -->\n");
    push_str(&mut meta, "<!-- spec_hash: ");
    push_str(&mut meta, decimal(source_hash).as_str());
    push_str(&mut meta, " | state_count: ");
    push_str(&mut meta, decimal(states.len() as u64).as_str());
    push_str(&mut meta, " | comment_count: ");
    push_str(&mut meta, decimal(comments.len() as u64).as_str());
    push_str(&mut meta, " -->\n");
    push_str(&mut meta, "<!-- Read instructions: see 'Agent query instructions' section -->\n\n");
    push_str(&mut meta, "=== SPEC ===\n");
    push_str(&mut meta, source);
    push_str(&mut meta, "\n=== COMMENTS ===\n");
    proof {
        reveal_strlit("");
    }
    assert(""@ =~= Seq::<char>::empty());
    push_all_sections(&mut meta, comments, states, "");
    push_str(&mut meta, "\n=== AGENT QUERY INSTRUCTIONS ===\n");
    push_str(&mut meta, AGENT_QUERY_INSTRUCTIONS);
    push_str(&mut meta, "\n=== END ===\n");
    meta
}

} // verus!
