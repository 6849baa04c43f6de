use tla_studio::model::{Action, ParsedMachine};
use tla_studio::session::{
    author_name, available_actions, available_targets, current_node_comment, current_state, delete_comment,
    autosave_name, autosave_to_drop, next_theme, parse_step, parser_status, save_comment_edit, sim_back, snapshot_name, stored_theme, submit_comment, version_to_drop,
};
use tla_studio::studio::{
    build_agent_meta, build_export, build_state_comments_bundle, decimal, decimal_padded, format_timestamp,
    hash_source, summarize_edge_labels, UserComment, AGENT_QUERY_INSTRUCTIONS,
};

fn s(x: &str) -> String {
    x.to_string()
}

fn comment(target: &str, author: &str, text: &str, category: Option<&str>) -> UserComment {
    UserComment { target: s(target), author: s(author), text: s(text), category: category.map(s), chain: None }
}

fn machine() -> ParsedMachine {
    ParsedMachine {
        module_name: s("Flow"),
        states: vec![s("A"), s("B"), s("C")],
        init_state: Some(s("A")),
        actions: vec![
            Action { name: s("Go"), from: vec![s("A")], to: vec![s("B")], comment: Some(s("Start going.")) },
            Action { name: s("Skip"), from: vec![s("A")], to: vec![s("C"), s("B")], comment: None },
            Action { name: s("Finish"), from: vec![s("B")], to: vec![s("C")], comment: Some(s("Wrap up.")) },
        ],
        invariants: Vec::new(),
        comments: Vec::new(),
        warnings: Vec::new(),
    }
}

#[test]
fn hash_source_is_djb2_over_utf8_bytes() {
    assert_eq!(hash_source(""), 5381);
    assert_eq!(hash_source("a"), 177670);
    assert_eq!(hash_source("ab"), 5863208);
    assert_eq!(hash_source("\u{e9}"), 5866513);
    assert_eq!(hash_source("MODULE"), 6952498793067);
}

#[test]
fn decimal_writes_digits() {
    assert_eq!(decimal(0), "0");
    assert_eq!(decimal(7), "7");
    assert_eq!(decimal(10), "10");
    assert_eq!(decimal(18446744073709551615), "18446744073709551615");
    assert_eq!(decimal_padded(7, 2), "07");
    assert_eq!(decimal_padded(2026, 4), "2026");
    assert_eq!(decimal_padded(123, 2), "123");
}

#[test]
fn timestamp_is_zero_padded_with_month_from_zero() {
    assert_eq!(format_timestamp(2026, 0, 5, 9, 3), "2026-01-05 09:03");
    assert_eq!(format_timestamp(999, 11, 31, 23, 59), "0999-12-31 23:59");
}

#[test]
fn edge_labels_are_summarised() {
    assert_eq!(summarize_edge_labels(&vec![]), "");
    assert_eq!(summarize_edge_labels(&vec![s("Go")]), "Go");
    assert_eq!(summarize_edge_labels(&vec![s("Go"), s("Run")]), "Go \u{b7} Run");
    assert_eq!(summarize_edge_labels(&vec![s("Go"), s("Run"), s("Fly"), s("Hop")]), "Go \u{b7} Run +2");
}

#[test]
fn comments_bundle_groups_comments_by_state() {
    let comments = vec![
        comment("B", "Ann", "Missing review.", Some("gap")),
        comment("A", "Bo", "Fine.", None),
        comment("B", "Cy", "Too slow.", None),
        comment("Z", "Di", "Not a state.", None),
    ];
    let states = vec![s("A"), s("B"), s("C")];
    let text = build_state_comments_bundle("SPEC", &comments, &states);
    assert_eq!(
        text,
        "=== TLA+ Source ===\n\nSPEC\n\n=== Stakeholder Comments ===\n\n[A]\n  (Bo) Fine.\n\n[B]\n  [GAP] (Ann) Missing review.\n  (Cy) Too slow.\n\n[Z]\n  (Di) Not a state.\n\n=== End ===\n"
    );
    let empty = build_state_comments_bundle("SPEC", &vec![], &states);
    assert_eq!(
        empty,
        "=== TLA+ Source ===\n\nSPEC\n\n=== Stakeholder Comments ===\n\n(No comments collected yet)\n\n=== End ===\n"
    );
}

#[test]
fn export_puts_prompt_first() {
    let states = vec![s("A")];
    let text = build_export("SPEC", &vec![], &states, "PROMPT\n");
    assert_eq!(
        text,
        "PROMPT\n=== TLA+ Source ===\n\nSPEC\n\n=== Stakeholder Comments ===\n\n(No comments collected yet \u{2014} the spec may still need review)\n\n=== End ===\n"
    );
    let one = build_export("S", &vec![comment("A", "Ed", "Hi", None)], &states, "P");
    assert_eq!(one, "P=== TLA+ Source ===\n\nS\n\n=== Stakeholder Comments ===\n\n[A]\n  (Ed) Hi\n\n=== End ===\n");
}

#[test]
fn agent_meta_reports_hash_and_counts() {
    let states = vec![s("A"), s("B")];
    let text = build_agent_meta("SPEC", &vec![comment("B", "Ann", "Check.", Some("risk"))], &states, 42);
    let expected = format!(
        "<!-- AGENT-READABLE: TLA+ Process Studio State -->\n<!-- spec_hash: 42 | state_count: 2 | comment_count: 1 -->\n<!-- Read instructions: see 'Agent query instructions' section -->\n\n=== SPEC ===\nSPEC\n=== COMMENTS ===\n[B]\n  [RISK] (Ann) Check.\n\n=== AGENT QUERY INSTRUCTIONS ===\n{}\n=== END ===\n",
        AGENT_QUERY_INSTRUCTIONS
    );
    assert_eq!(text, expected);
}

#[test]
fn walk_offers_actions_and_targets_from_current_state() {
    let m = machine();
    assert_eq!(current_state(&m, &vec![]), "A");
    assert_eq!(current_state(&m, &vec![s("A"), s("B")]), "B");
    assert_eq!(available_actions(&m, &s("A")), vec![0, 1]);
    assert_eq!(available_actions(&m, &s("C")), Vec::<usize>::new());
    assert_eq!(available_targets(&m, &s("A")), vec![s("B"), s("C")]);
    assert_eq!(available_targets(&m, &s("B")), vec![s("C")]);
}

#[test]
fn node_comment_follows_the_step_taken() {
    let m = machine();
    assert_eq!(current_node_comment(&m, &vec![s("A")]), Some(s("Start going.")));
    assert_eq!(current_node_comment(&m, &vec![s("A"), s("B")]), Some(s("Start going.")));
    assert_eq!(current_node_comment(&m, &vec![s("A"), s("C")]), None);
    assert_eq!(current_node_comment(&m, &vec![s("A"), s("B"), s("C")]), Some(s("Wrap up.")));
    assert_eq!(current_node_comment(&m, &vec![s("C")]), None);
}

#[test]
fn stepping_back_keeps_the_first_state() {
    let mut chain = vec![s("A"), s("B")];
    assert_eq!(sim_back(&mut chain), Some(s("A")));
    assert_eq!(chain, vec![s("A")]);
    assert_eq!(sim_back(&mut chain), None);
    assert_eq!(chain, vec![s("A")]);
}

#[test]
fn comments_are_added_edited_and_deleted() {
    let mut comments: Vec<UserComment> = Vec::new();
    let chain = vec![s("A"), s("B")];
    assert!(!submit_comment(&mut comments, &Some(s("B")), &s("Ann"), &s("   \n"), &chain));
    assert!(!submit_comment(&mut comments, &None, &s("Ann"), &s("Real text"), &chain));
    assert!(comments.is_empty());
    assert!(submit_comment(&mut comments, &Some(s("B")), &s("Ann"), &s("  Needs a gate.  "), &chain));
    assert_eq!(comments.len(), 1);
    assert_eq!(comments[0].text, "Needs a gate.");
    assert_eq!(comments[0].target, "B");
    assert_eq!(comments[0].chain, Some(chain.clone()));
    assert_eq!(comments[0].category, None);
    assert!(!save_comment_edit(&mut comments, 0, &s("   ")));
    assert!(!save_comment_edit(&mut comments, 3, &s("x")));
    assert!(save_comment_edit(&mut comments, 0, &s(" Needs two gates. ")));
    assert_eq!(comments[0].text, "Needs two gates.");
    assert!(!delete_comment(&mut comments, 1));
    assert!(delete_comment(&mut comments, 0));
    assert!(comments.is_empty());
}

#[test]
fn blank_author_is_anonymous() {
    assert_eq!(author_name(&s("  ")), "Anonymous");
    assert_eq!(author_name(&s(" Ann ")), " Ann ");
}

#[test]
fn snapshot_names_fall_back_to_module_then_generic() {
    assert_eq!(snapshot_name(&s(" v2 "), &s("Flow"), &s("2026-01-05 09:03")), "v2 (2026-01-05 09:03)");
    assert_eq!(snapshot_name(&s(""), &s(" Flow "), &s("T")), "Flow (T)");
    assert_eq!(snapshot_name(&s(" "), &s(""), &s("T")), "Snapshot T");
}

#[test]
fn oldest_prefixed_version_is_dropped_over_cap() {
    let names = vec![s("Manual"), s("Auto-save 1"), s("Auto-save 2"), s("Auto-save 3")];
    assert_eq!(version_to_drop(&names, "Auto-save ", 2), Some(1));
    assert_eq!(version_to_drop(&names, "Auto-save ", 3), None);
    assert_eq!(version_to_drop(&names, "Backup: ", 0), None);
}

#[test]
fn theme_toggle_cycles() {
    assert_eq!(next_theme(&None), Some(s("light")));
    assert_eq!(next_theme(&Some(s("light"))), Some(s("dark")));
    assert_eq!(next_theme(&Some(s("dark"))), None);
    assert_eq!(next_theme(&Some(s("blue"))), None);
    assert_eq!(stored_theme(&s("dark")), Some(s("dark")));
    assert_eq!(stored_theme(&s("blue")), None);
}

#[test]
fn parse_step_autosaves_only_a_changed_non_blank_source() {
    let h = hash_source("a");
    assert_eq!(parse_step("a", 5381, "a"), (h, true, true));
    assert_eq!(parse_step("a", h, "a"), (h, false, false));
    assert_eq!(parse_step("a", 5381, "  \n\t"), (h, true, false));
    assert_eq!(parse_step("", 5381, "x"), (5381, false, false));
}

#[test]
fn reparsing_the_same_source_changes_nothing() {
    let (h, changed, keep) = parse_step("MODULE", 1, "MODULE");
    assert!(changed && keep);
    assert_eq!(parse_step("MODULE", h, "other"), (h, false, false));
}

#[test]
fn autosave_names_and_cap() {
    assert_eq!(autosave_name(&s("2026-01-05 09:03")), "Auto-save 2026-01-05 09:03");
    let mut names: Vec<String> = vec![s("Backup: x (t)")];
    for i in 0..20 {
        names.push(format!("Auto-save {}", i));
    }
    assert_eq!(autosave_to_drop(&names), None);
    names.push(s("Auto-save 20"));
    assert_eq!(autosave_to_drop(&names), Some(1));
}

#[test]
fn parser_status_reports_no_spec_ok_or_warnings() {
    let mut m = machine();
    assert_eq!(parser_status(&m), "ok");
    m.warnings.push(s("careful"));
    assert_eq!(parser_status(&m), "warnings");
    m.states.clear();
    assert_eq!(parser_status(&m), "no-spec");
}

#[test]
fn comments_on_other_targets_follow_in_comment_order() {
    let states = vec![s("A")];
    let comments = vec![
        comment("Old", "Ann", "Renamed?", None),
        comment("A", "Bo", "Ok.", None),
        comment("Gone", "Cy", "Removed.", Some("gap")),
        comment("Old", "Di", "Still here.", None),
    ];
    let one = build_export("S", &comments, &states, "P");
    assert_eq!(
        one,
        "P=== TLA+ Source ===\n\nS\n\n=== Stakeholder Comments ===\n\n[A]\n  (Bo) Ok.\n\n[Old]\n  (Ann) Renamed?\n  (Di) Still here.\n\n[Gone]\n  [GAP] (Cy) Removed.\n\n=== End ===\n"
    );
    let meta = build_agent_meta("S", &comments, &states, 7);
    let expected = format!(
        "<!-- AGENT-READABLE: TLA+ Process Studio State -->\n<!-- spec_hash: 7 | state_count: 1 | comment_count: 4 -->\n<!-- Read instructions: see 'Agent query instructions' section -->\n\n=== SPEC ===\nS\n=== COMMENTS ===\n[A]\n  (Bo) Ok.\n[Old]\n  (Ann) Renamed?\n  (Di) Still here.\n[Gone]\n  [GAP] (Cy) Removed.\n\n=== AGENT QUERY INSTRUCTIONS ===\n{}\n=== END ===\n",
        AGENT_QUERY_INSTRUCTIONS
    );
    assert_eq!(meta, expected);
}
