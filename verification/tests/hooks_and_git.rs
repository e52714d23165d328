use qctl::cli::{InitArgs, LedgerArgs};
use qctl::document::notes::{item, items};
use qctl::hooks::{install, install_git_hook, install_lefthook};
use qctl::mutate::{check_blockers, closing_ids, finish_close, init, insertion_index, require_plan, valid_prefix};
use qctl::report::{HookOutcome, Report};
use qctl::schema::{Ledger, QueuedTask, Style};
use qctl::trailers::{closed_ids, closed_ids_pre_push, closed_ids_rev};

fn text(chars: Vec<char>) -> String {
    chars.into_iter().collect()
}

fn strings(items: &[&str]) -> Vec<String> {
    items.iter().map(|s| s.to_string()).collect()
}

fn queued(id: &str) -> QueuedTask {
    QueuedTask {
        id: id.to_string(),
        title: "t".to_string(),
        scope: "s".to_string(),
        outcome: "o".to_string(),
        blocked_by: Vec::new(),
        acceptance: strings(&["a"]),
        patch: None,
        plan: None,
        links: Vec::new(),
        notes: Vec::new(),
    }
}

fn ledger(active: Option<&str>, ids: &[&str]) -> Ledger {
    Ledger {
        schema_version: 4,
        prefix: "CTC".to_string(),
        style: Style::default_style(),
        active: active.map(|a| a.to_string()),
        queue: ids.iter().map(|id| queued(id)).collect(),
        archive: Vec::new(),
        horizon: Vec::new(),
    }
}

#[test]
fn hook_install_prefers_lefthook_and_hands_back_the_snippet() {
    let err = install_lefthook("lefthook.yml", "pre-push:\n  commands: {}\n", "tasks.yaml", false)
        .err()
        .expect("not installed");
    assert_eq!(err.1, "lefthook.yml present; hook not installed");
    match err.0 {
        Report::HookInstalled { outcome, snippet, .. } => {
            assert_eq!(outcome, HookOutcome::NeedsConfiguration);
            assert!(snippet.expect("snippet").contains("close-from-git -f 'tasks.yaml'"));
        }
        _ => panic!("not a hook report"),
    }
}

#[test]
fn hook_install_reports_when_lefthook_already_runs_close_from_git() {
    let result = install_lefthook("lefthook.yml", "pre-push:\n  commands:\n    q:\n      run: qctl close-from-git\n", "tasks.yaml", true);
    assert!(matches!(result, Ok(Report::HookInstalled { outcome: HookOutcome::AlreadyConfigured, snippet: None, .. })));
}

#[test]
fn hook_install_says_force_does_not_apply_to_lefthook() {
    let err = install_lefthook("lefthook.yaml", "", "tasks.yaml", true).err().expect("refused");
    assert_eq!(err.1, "--force does not apply when lefthook.yaml exists; qctl does not edit Lefthook config");
    assert!(err.0.message_kind_is_error());
}

#[test]
fn hook_install_writes_pre_push_unless_one_is_there() {
    let (report, body) = install_git_hook(".git/hooks/pre-push", false, "tasks.yaml", false).expect("installed");
    assert_eq!(body, "#!/bin/sh\nexec qctl close-from-git --pre-push -f 'tasks.yaml'\n");
    assert!(matches!(report, Report::HookInstalled { outcome: HookOutcome::Installed, .. }));
    let err = install_git_hook(".git/hooks/pre-push", true, "tasks.yaml", false).err().expect("refused");
    assert_eq!(err, ".git/hooks/pre-push already exists (pass --force)");
    assert!(install_git_hook(".git/hooks/pre-push", true, "tasks.yaml", true).is_ok());
    assert!(matches!(install(None, "tasks.yaml", false), Ok(None)));
    assert!(install(Some(("lefthook.yml", "")), "tasks.yaml", false).is_err());
}

#[test]
fn pre_push_lines_become_revision_ranges() {
    let zeros = "0".repeat(40);
    let stdin = format!("refs/heads/main abc refs/heads/main {zeros}\nrefs/heads/x def refs/heads/x 123\n");
    assert_eq!(
        closed_ids_pre_push(&stdin),
        vec![Ok("abc".to_string()), Ok("123..def".to_string())]
    );
    let bad = closed_ids_pre_push("one two\nrefs/heads/x def refs/heads/x 123\n");
    assert_eq!(bad.len(), 1);
    assert!(bad[0].is_err());
    assert!(closed_ids_pre_push("\n\n").is_empty());
}

#[test]
fn a_history_that_cannot_be_read_is_a_failure() {
    assert_eq!(closed_ids(Err("not a repository".to_string())), Err("not a repository".to_string()));
    assert_eq!(closed_ids_rev(Err("bad range".to_string())), Err("bad range".to_string()));
    assert_eq!(
        closed_ids(Ok("abc\0feat: x\n\nCloses CTC-001\n".to_string())),
        Ok(vec![("CTC-001".to_string(), "abc".to_string())])
    );
}

#[test]
fn close_from_git_archives_each_queued_id_once() {
    let l = ledger(None, &["CTC-001", "CTC-002"]);
    let closed = vec![
        ("CTC-002".to_string(), "aaa".to_string()),
        ("CTC-009".to_string(), "bbb".to_string()),
        ("CTC-002".to_string(), "ccc".to_string()),
        ("CTC-001".to_string(), "ddd".to_string()),
    ];
    assert_eq!(
        closing_ids(&l, &closed),
        vec![("CTC-002".to_string(), "aaa".to_string()), ("CTC-001".to_string(), "ddd".to_string())]
    );
}

#[test]
fn close_from_git_pre_push_refuses_to_amend() {
    let after = ledger(None, &[]);
    let err = finish_close(&after, &strings(&["CTC-001"]), true, "tasks.yaml").err().expect("refused");
    assert!(err.contains("does not amend"), "{err}");
    assert!(err.contains("CTC-001"), "{err}");
    assert!(finish_close(&after, &strings(&["CTC-001"]), false, "tasks.yaml").is_ok());
    let stale = ledger(Some("CTC-001"), &[]);
    let err = finish_close(&stale, &strings(&["CTC-001"]), false, "tasks.yaml").err().expect("refused");
    assert_eq!(err, "active CTC-001 still names a closed id");
}

#[test]
fn init_writes_ledger_without_schema_copy() {
    let args = InitArgs { prefix: "omx".to_string(), ledger: LedgerArgs { file: None }, force: false };
    let body = init(&args, "tasks.yaml", false).expect("init");
    assert!(body.contains("prefix: OMX"));
    assert!(body.contains("horizon: []"));
    assert!(body.contains("$schema="));
}

#[test]
fn init_refuses_overwrite_without_force() {
    let args = InitArgs { prefix: "QCTL".to_string(), ledger: LedgerArgs { file: None }, force: false };
    let err = init(&args, "tasks.yaml", true).err().expect("refused");
    assert!(err.contains("already exists"));
    let forced = InitArgs { prefix: "QCTL".to_string(), ledger: LedgerArgs { file: None }, force: true };
    assert!(init(&forced, "tasks.yaml", true).is_ok());
    let bad = InitArgs { prefix: "9X".to_string(), ledger: LedgerArgs { file: None }, force: false };
    assert_eq!(init(&bad, "tasks.yaml", false).err().as_deref(), Some("prefix must match [A-Z][A-Z0-9]{1,7}"));
}

#[test]
fn prefixes_are_two_to_eight_upper_case_characters() {
    assert!(valid_prefix("QCTL"));
    assert!(valid_prefix("A1"));
    assert!(!valid_prefix("A"));
    assert!(!valid_prefix("qctl"));
    assert!(!valid_prefix("ABCDEFGHI"));
}

#[test]
fn insertion_goes_before_or_after_a_queued_id() {
    let ids = strings(&["A-001", "A-002"]);
    assert_eq!(insertion_index(&ids, None, None), Ok(2));
    assert_eq!(insertion_index(&ids, Some(&"A-002".to_string()), None), Ok(1));
    assert_eq!(insertion_index(&ids, None, Some(&"A-001".to_string())), Ok(1));
    assert_eq!(insertion_index(&ids, Some(&"A-009".to_string()), None), Err("A-009 is not queued".to_string()));
    assert_eq!(
        insertion_index(&ids, Some(&"A-001".to_string()), Some(&"A-002".to_string())),
        Err("use --before or --after, not both".to_string())
    );
}

#[test]
fn blockers_must_sit_earlier_in_the_queue() {
    let ids = strings(&["A-001", "A-002"]);
    assert!(check_blockers(&ids, "A-003", &strings(&["A-001"]), 2).is_ok());
    assert!(check_blockers(&ids, "A-003", &strings(&["A-002"]), 1).is_err());
    assert!(check_blockers(&ids, "A-003", &strings(&["A-404"]), 2).is_err());
}

#[test]
fn a_plan_must_exist_beside_the_ledger() {
    assert!(require_plan(None, false).is_ok());
    assert!(require_plan(Some(&"docs/plan.md".to_string()), true).is_ok());
    assert!(require_plan(Some(&"docs/plan.md".to_string()), false).is_err());
}

#[test]
fn repeated_notes_are_readable_distinct_list_items() {
    assert_eq!(text(item("Short context.").unwrap()), "- Short context.");
    assert_eq!(text(item("Source: the colon stays readable.").unwrap()), "- >2-\n  Source: the colon stays readable.");
    assert_eq!(
        text(item("First intentional line.\nSecond intentional line.\n\nNext paragraph.").unwrap()),
        "- |2-\n  First intentional line.\n  Second intentional line.\n\n  Next paragraph."
    );
    assert_eq!(
        text(item("  Indented first line.\nPlain second line.").unwrap()),
        "- |2-\n    Indented first line.\n  Plain second line."
    );
    let all = text(items(&strings(&["Short context.", "Source: the colon stays readable."])).unwrap());
    let read: Vec<String> = serde_yml::from_str(&all).expect("reads back");
    assert_eq!(read, strings(&["Short context.", "Source: the colon stays readable."]));
}
