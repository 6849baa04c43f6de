use tla_studio::model::ParsedMachine;
use tla_studio::parser::{parse_tla, parse_tla_checked};

const SAMPLE: &str = r#"---- MODULE CollaborativeModeling ----

(*
    Meta-model: the collaborative workflow of building and iterating a
    business-process state machine in TLA+ Process Studio.
*)

VARIABLE processState

ProcessStates == {
    "NoSpec",
    "DraftingPrompt",
    "WaitingOnLLM",
    "SpecLoaded",
    "Simulating",
    "Commenting",
    "ReviewingComments",
    "Iterating",
    "ConsensusReached",
    "Archived"
}

(* The facilitator opens the tool for the first time. *)
StartFresh ==
    /\ processState = "NoSpec"
    /\ processState' = "DraftingPrompt"

(* Copy the bootstrap prompt and customize it for the domain. *)
DraftBootstrapPrompt ==
    /\ processState = "DraftingPrompt"
    /\ processState' = "WaitingOnLLM"

(* LLM returns a draft spec; paste it and parse. *)
ReceiveSpec ==
    /\ processState = "WaitingOnLLM"
    /\ processState' = "SpecLoaded"

(* Walk through the modeled process. *)
BeginSimulation ==
    /\ processState = "SpecLoaded"
    /\ processState' = "Simulating"

(* Move through transitions and inspect each state. *)
StepThroughTransition ==
    /\ processState = "Simulating"
    /\ processState' = "Commenting"

(* Capture stakeholder feedback on a state. *)
LeaveComment ==
    /\ processState = "Commenting"
    /\ processState' = "Simulating"

(* Review all collected comments and conflicts. *)
FinishReview ==
    /\ processState = "Simulating"
    /\ processState' = "ReviewingComments"

(* Decide to revise model based on evidence. *)
DecideToIterate ==
    /\ processState = "ReviewingComments"
    /\ processState' = "Iterating"

(* Copy state + comments or iterate prompt and send to LLM. *)
SendIterationToLLM ==
    /\ processState = "Iterating"
    /\ processState' = "WaitingOnLLM"

(* Team agrees model reflects real process behavior. *)
ReachConsensus ==
    /\ processState = "ReviewingComments"
    /\ processState' = "ConsensusReached"

(* Save and share the finalized model. *)
ArchiveModel ==
    /\ processState = "ConsensusReached"
    /\ processState' = "Archived"

(* Reopen an archived model for another cycle. *)
ReopenModel ==
    /\ processState = "Archived"
    /\ processState' = "SpecLoaded"

(* Load a shared URL or imported version directly. *)
LoadSharedSpec ==
    /\ processState = "NoSpec"
    /\ processState' = "SpecLoaded"

(* INVARIANT: state is always one of the known stages. *)
TypeCorrectness ==
    processState \in ProcessStates => TRUE

Init == processState = "NoSpec"

Next ==
    \/ StartFresh
    \/ DraftBootstrapPrompt
    \/ ReceiveSpec
    \/ BeginSimulation
    \/ StepThroughTransition
    \/ LeaveComment
    \/ FinishReview
    \/ DecideToIterate
    \/ SendIterationToLLM
    \/ ReachConsensus
    \/ ArchiveModel
    \/ ReopenModel
    \/ LoadSharedSpec

===="#;

fn names(v: &[String]) -> Vec<&str> {
    v.iter().map(|s| s.as_str()).collect()
}

#[test]
fn sample_module_parses_completely() {
    let m = parse_tla(SAMPLE);
    assert_eq!(m.module_name, "CollaborativeModeling");
    assert_eq!(
        names(&m.states),
        vec![
            "Archived",
            "Commenting",
            "ConsensusReached",
            "DraftingPrompt",
            "Iterating",
            "NoSpec",
            "ReviewingComments",
            "Simulating",
            "SpecLoaded",
            "WaitingOnLLM",
        ]
    );
    assert_eq!(m.init_state.as_deref(), Some("NoSpec"));
    let action_names: Vec<&str> = m.actions.iter().map(|a| a.name.as_str()).collect();
    assert_eq!(
        action_names,
        vec![
            "ArchiveModel",
            "BeginSimulation",
            "DecideToIterate",
            "DraftBootstrapPrompt",
            "FinishReview",
            "LeaveComment",
            "LoadSharedSpec",
            "ReachConsensus",
            "ReceiveSpec",
            "ReopenModel",
            "SendIterationToLLM",
            "StartFresh",
            "StepThroughTransition",
        ]
    );
    let start = m.actions.iter().find(|a| a.name == "StartFresh").unwrap();
    assert_eq!(names(&start.from), vec!["NoSpec"]);
    assert_eq!(names(&start.to), vec!["DraftingPrompt"]);
    assert_eq!(start.comment.as_deref(), Some("The facilitator opens the tool for the first time."));
    assert_eq!(
        m.invariants,
        vec!["TypeCorrectness: processState \\in ProcessStates => TRUE".to_string()]
    );
    assert_eq!(m.comments.len(), 13);
    assert!(m.warnings.is_empty(), "{:?}", m.warnings);
    assert_eq!(m.start_state(), "NoSpec");
}

#[test]
fn empty_source_warns_about_everything_missing() {
    let m = parse_tla("");
    assert_eq!(m.module_name, "Untitled Machine");
    assert!(m.states.is_empty());
    assert!(m.actions.is_empty());
    assert_eq!(m.warnings.len(), 3);
    assert!(m.warnings[0].starts_with("No state sets detected."));
    assert!(m.warnings[1].starts_with("Missing `Init =="));
    assert!(m.warnings[2].starts_with("Missing `Next =="));
    assert_eq!(m.start_state(), "No Spec");
}

#[test]
fn empty_machine_has_placeholder_name() {
    let m = ParsedMachine::empty();
    assert_eq!(m.module_name, "Untitled Machine");
    assert!(m.states.is_empty() && m.actions.is_empty() && m.warnings.is_empty());
    assert_eq!(m.init_state, None);
}

#[test]
fn definition_running_into_module_end_is_refused_by_checked_parse() {
    assert!(parse_tla_checked("Foo\n====\n").is_none());
    assert!(parse_tla_checked("Foo == 1\n====\n").is_some());
}


#[test]
fn normalize_ws_collapses_runs_of_white_space() {
    assert_eq!(tla_studio::prose::normalize_ws("  a \n\t b  c "), "a b c");
    assert_eq!(tla_studio::prose::normalize_ws(" \n "), "");
    assert_eq!(tla_studio::prose::normalize_ws("one"), "one");
}

#[test]
fn strip_block_comments_removes_closed_comments() {
    assert_eq!(tla_studio::prose::strip_block_comments("a (* x *) b"), "a  b");
    assert_eq!(tla_studio::prose::strip_block_comments("a (* x *) b (* y"), "a  b  y");
    assert_eq!(tla_studio::prose::strip_block_comments("plain"), "plain");
}

#[test]
fn preceding_comment_needs_only_white_space_before_the_action() {
    let src = "(* hello *)\nFoo == x";
    assert_eq!(tla_studio::prose::extract_preceding_comment(src, 12), Some(" hello ".to_string()));
    let src2 = "(* hello *) junk\nFoo == x";
    assert_eq!(tla_studio::prose::extract_preceding_comment(src2, 17), None);
    assert_eq!(tla_studio::prose::extract_preceding_comment("Foo == x", 0), None);
}

#[test]
fn action_blocks_split_definitions_with_their_comments() {
    let src = "---- MODULE M ----\n(* c *)\nA == x\nB == y\n====\n";
    let blocks = tla_studio::parser::action_blocks(src);
    assert_eq!(
        blocks,
        vec![(Some(" c ".to_string()), "A".to_string(), "x".to_string()), (None, "B".to_string(), "y".to_string())]
    );
}

#[test]
fn unicode_letters_count_as_word_characters() {
    let src = "---- MODULE Flux ----\nVARIABLE flowState\nFlowStates == {\"D\u{e9}but\", \"Fin\"}\nInit == flowState = \"D\u{e9}but\"\nD\u{e9}marrer ==\n    /\\ flowState = \"D\u{e9}but\"\n    /\\ flowState' = \"Fin\"\nNext == D\u{e9}marrer\n====\n";
    let m = parse_tla(src);
    assert_eq!(m.module_name, "Flux");
    assert_eq!(m.states, vec!["D\u{e9}but".to_string(), "Fin".to_string()]);
    assert_eq!(m.actions.len(), 1);
    assert_eq!(m.actions[0].name, "D\u{e9}marrer");
    assert_eq!(m.actions[0].from, vec!["D\u{e9}but".to_string()]);
    assert_eq!(m.actions[0].to, vec!["Fin".to_string()]);
}
