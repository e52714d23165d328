use qctl::document::notes::item;
use qctl::document::text::{dedent_text, indent_text};
use qctl::hooks::{git_hook_body, ledger_rel, lefthook_snippet};
use qctl::ledger::corpus::{format_range, missing_ranges};
use qctl::ledger::id_matches_prefix;
use qctl::trailers::parse_log;

fn text(chars: Vec<char>) -> String {
    chars.into_iter().collect()
}

#[test]
fn ledger_rel_refuses_a_single_quote() {
    let err = ledger_rel("/repo/it's.yaml", "/repo").unwrap_err();
    assert!(err.contains("single quote"), "{err}");
}

#[test]
fn accepts_prefixed_ids() {
    assert!(id_matches_prefix("OMX-001", "OMX"));
    assert!(id_matches_prefix("PST-037", "PST"));
    assert!(!id_matches_prefix("OMX-01", "OMX"));
    assert!(!id_matches_prefix("KAI-001", "OMX"));
}

#[test]
fn missing_ids_are_complete_compact_ranges() {
    assert_eq!(missing_ranges(&[1, 3, 7, 8, 10]), [(2, 2), (4, 6), (9, 9)]);
    assert_eq!(format_range("QCTL", 4, 6), "QCTL-004..QCTL-006");
}

#[test]
fn ignores_subject_slogans() {
    let log = "abc\0Closes CTC-001 in the subject only\n\nNo trailer.\n";
    assert_eq!(parse_log(log), Vec::new());
}

#[test]
fn reads_closes_and_completes() {
    let log = "abc\0feat: chassis\n\nCloses CTC-001\n\u{1e}def\0chore: note\n\nCompletes: CTC-002\n";
    let ids = parse_log(log);
    assert_eq!(
        ids,
        vec![
            ("CTC-001".to_string(), "abc".to_string()),
            ("CTC-002".to_string(), "def".to_string()),
        ]
    );
}

#[test]
fn parse_log_needs_body_trailer() {
    let log = "abc\0Closes CTC-001 only in subject\n";
    assert!(parse_log(log).is_empty());
}

#[test]
fn a_bare_subject_trailer_is_not_a_trailer() {
    assert!(parse_log("abc\0Closes CTC-001\n").is_empty());
    assert!(parse_log("abc\0Completes: CTC-001").is_empty());
    assert_eq!(
        parse_log("abc\0Closes CTC-001\nCloses CTC-002\n"),
        vec![("CTC-002".to_string(), "abc".to_string())]
    );
}

#[test]
fn lefthook_snippet_is_the_command_to_paste() {
    assert_eq!(
        lefthook_snippet("tasks.yaml"),
        "# add under pre-push.commands in lefthook.yml\n    qctl-close:\n      run: mise run q close-from-git -f 'tasks.yaml'\n"
    );
}

#[test]
fn lefthook_snippet_quotes_a_nested_path() {
    assert_eq!(
        lefthook_snippet("queue/tasks.yaml"),
        "# add under pre-push.commands in lefthook.yml\n    qctl-close:\n      run: mise run q close-from-git -f 'queue/tasks.yaml'\n"
    );
}

#[test]
fn git_hook_body_is_the_script() {
    assert_eq!(
        git_hook_body("tasks.yaml"),
        "#!/bin/sh\nexec qctl close-from-git --pre-push -f 'tasks.yaml'\n"
    );
}

#[test]
fn git_hook_body_quotes_a_nested_path() {
    assert_eq!(
        git_hook_body("queue/tasks.yaml"),
        "#!/bin/sh\nexec qctl close-from-git --pre-push -f 'queue/tasks.yaml'\n"
    );
}

#[test]
fn multiple_trailing_newlines_use_exact_escaped_fallback() {
    let rendered = text(item("trailing\n\n").expect("render item"));
    assert_eq!(rendered, r#"- "trailing\n\n""#);
    assert!(!rendered.contains("|2+"));
}

#[test]
fn ledger_rel_is_relative_to_the_root() {
    assert_eq!(ledger_rel("/repo/queue/tasks.yaml", "/repo").unwrap(), "queue/tasks.yaml");
    assert_eq!(ledger_rel("/repo/tasks.yaml", "/repo").unwrap(), "tasks.yaml");
}

#[test]
fn ledger_rel_refuses_a_ledger_outside_the_root() {
    assert!(ledger_rel("/elsewhere/tasks.yaml", "/repo").is_err());
}

#[test]
fn a_short_note_is_a_plain_item() {
    assert_eq!(text(item("Short context.").unwrap()), "- Short context.");
}

#[test]
fn a_row_indented_and_dedented_by_the_same_amount_is_unchanged() {
    let row: Vec<char> = "- id: QCTL-001\n  title: t\n\n  notes:\n    - a".chars().collect();
    let moved = indent_text(&row, 4);
    assert_eq!(text(moved.clone()), "    - id: QCTL-001\n      title: t\n\n      notes:\n        - a");
    assert_eq!(dedent_text(&moved, 4), row);
    let shallow: Vec<char> = " x\ny".chars().collect();
    assert_eq!(text(dedent_text(&shallow, 2)), "x\ny");
}
