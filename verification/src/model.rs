//! The parsed form of a specification.

use vstd::prelude::*;

verus! {

/// A parsed state machine: its module name, states, initial state,
/// transitions, invariants, narrative comments and the parser's warnings.
#[derive(Clone, Debug, PartialEq, Eq)]
pub struct ParsedMachine {
    pub module_name: String,
    pub states: Vec<String>,
    pub init_state: Option<String>,
    pub actions: Vec<Action>,
    pub invariants: Vec<String>,
    pub comments: Vec<Comment>,
    pub warnings: Vec<String>,
}

/// A named transition from any of `from` to any of `to`.
#[derive(Clone, Debug, PartialEq, Eq)]
pub struct Action {
    pub name: String,
    pub from: Vec<String>,
    pub to: Vec<String>,
    pub comment: Option<String>,
}

/// A narrative comment attached to the definition named `target`.
#[derive(Clone, Debug, PartialEq, Eq)]
pub struct Comment {
    pub target: String,
    pub text: String,
}

/// The mathematical value of a `ParsedMachine`.
pub struct MachineView {
    pub module_name: Seq<char>,
    pub states: Seq<Seq<char>>,
    pub init_state: Option<Seq<char>>,
    pub actions: Seq<ActionView>,
    pub invariants: Seq<Seq<char>>,
    pub comments: Seq<CommentView>,
    pub warnings: Seq<Seq<char>>,
}

/// The mathematical value of an `Action`.
pub struct ActionView {
    pub name: Seq<char>,
    pub from: Seq<Seq<char>>,
    pub to: Seq<Seq<char>>,
    pub comment: Option<Seq<char>>,
}

/// The mathematical value of a `Comment`.
pub struct CommentView {
    pub target: Seq<char>,
    pub text: Seq<char>,
}

/// The characters of each string.
pub open spec fn strings_view(v: Seq<String>) -> Seq<Seq<char>> {
    v.map_values(|x: String| x@)
}

/// The values of the actions.
pub open spec fn actions_view(v: Seq<Action>) -> Seq<ActionView> {
    v.map_values(|a: Action| a@)
}

/// The characters of an optional string.
pub open spec fn opt_view(o: Option<String>) -> Option<Seq<char>> {
    match o {
        Some(x) => Some(x@),
        None => None,
    }
}

impl View for Action {
    type V = ActionView;

    open spec fn view(&self) -> ActionView {
        ActionView {
            name: self.name@,
            from: strings_view(self.from@),
            to: strings_view(self.to@),
            comment: opt_view(self.comment),
        }
    }
}

impl View for Comment {
    type V = CommentView;

    open spec fn view(&self) -> CommentView {
        CommentView { target: self.target@, text: self.text@ }
    }
}

impl View for ParsedMachine {
    type V = MachineView;

    open spec fn view(&self) -> MachineView {
        MachineView {
            module_name: self.module_name@,
            states: strings_view(self.states@),
            init_state: opt_view(self.init_state),
            actions: actions_view(self.actions@),
            invariants: strings_view(self.invariants@),
            comments: self.comments@.map_values(|c: Comment| c@),
            warnings: strings_view(self.warnings@),
        }
    }
}

/// The name a machine has before a module header names it.
pub open spec fn untitled() -> Seq<char> {
    "Untitled Machine"@
}

/// The start state that a machine with no states and no initial state shows.
pub open spec fn no_spec() -> Seq<char> {
    "No Spec"@
}

/// The state a walk through the machine begins in: the declared initial
/// state, else the first state, else a placeholder.
pub open spec fn start_of(m: MachineView) -> Seq<char> {
    match m.init_state {
        Some(s) => s,
        None => if m.states.len() > 0 {
            m.states[0]
        } else {
            no_spec()
        },
    }
}

impl ParsedMachine {
    /// A machine with nothing parsed yet.
    pub fn empty() -> (r: Self)
        ensures
            r@.module_name == untitled(),
            r@.states.len() == 0,
            r@.init_state is None,
            r@.actions.len() == 0,
            r@.invariants.len() == 0,
            r@.comments.len() == 0,
            r@.warnings.len() == 0,
    {
        ParsedMachine {
            module_name: String::from_str("Untitled Machine"),
            states: Vec::new(),
            init_state: None,
            actions: Vec::new(),
            invariants: Vec::new(),
            comments: Vec::new(),
            warnings: Vec::new(),
        }
    }

    /// Return the initial state: either from `Init ==` or the first sorted state.
    pub fn start_state(&self) -> (r: String)
        ensures
            r@ == start_of(self@),
    {
        match &self.init_state {
            Some(s) => s.clone(),
            None => if self.states.len() > 0 {
                self.states[0].clone()
            } else {
                String::from_str("No Spec")
            },
        }
    }
}

} // verus!
