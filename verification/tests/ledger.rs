use qctl::check::{findings, run as check_run, trailer_errors, TrailerScan};
use qctl::ledger::{find_task, graph_errors, next_id, plan_paths, show, status, value_errors, vouch_for};
use qctl::report::{Report, Task};
use qctl::schema::{ArchivedTask, HorizonTask, Kind, Ledger, QueuedTask, Style};

fn strings(items: &[&str]) -> Vec<String> {
    items.iter().map(|s| s.to_string()).collect()
}

fn queued(id: &str, blocked_by: &[&str]) -> QueuedTask {
    QueuedTask {
        id: id.to_string(),
        title: "t".to_string(),
        scope: "s".to_string(),
        outcome: "o".to_string(),
        blocked_by: strings(blocked_by),
        acceptance: strings(&["a"]),
        patch: None,
        plan: None,
        links: Vec::new(),
        notes: Vec::new(),
    }
}

fn archived(id: &str, completed: &str) -> ArchivedTask {
    ArchivedTask {
        id: id.to_string(),
        title: "t".to_string(),
        scope: "s".to_string(),
        completed: completed.to_string(),
        outcome: "o".to_string(),
        evidence: strings(&["e"]),
        disposition: None,
        patch: None,
        plan: None,
        links: Vec::new(),
        notes: Vec::new(),
    }
}

fn horizon(id: &str) -> HorizonTask {
    HorizonTask {
        id: id.to_string(),
        title: "later".to_string(),
        scope: "s".to_string(),
        outcome: "o".to_string(),
        kind: Kind::Deferred,
        open: "later".to_string(),
        patch: None,
        plan: None,
        links: Vec::new(),
        notes: Vec::new(),
    }
}

fn ledger(active: Option<&str>, queue: Vec<QueuedTask>, archive: Vec<ArchivedTask>, horizon: Vec<HorizonTask>) -> Ledger {
    Ledger {
        schema_version: 4,
        prefix: "QCTL".to_string(),
        style: Style::default_style(),
        active: active.map(|a| a.to_string()),
        queue,
        archive,
        horizon,
    }
}

fn errors(l: &Ledger) -> Vec<String> {
    let present = vec![true; plan_paths(l).len()];
    graph_errors(l, &present)
}

#[test]
fn empty_ledger_is_clean() {
    assert_eq!(errors(&ledger(None, Vec::new(), Vec::new(), Vec::new())), Vec::<String>::new());
}

#[test]
fn rejects_wrong_prefix_and_short_id() {
    let found = errors(&ledger(None, vec![queued("OMX-001", &[]), queued("QCTL-01", &[])], Vec::new(), Vec::new()));
    assert!(found.iter().any(|e| e.contains("OMX-001")), "{found:?}");
    assert!(found.iter().any(|e| e.contains("QCTL-01")), "{found:?}");
}

#[test]
fn rejects_duplicate_ids_across_lists() {
    let found = errors(&ledger(
        None,
        vec![queued("QCTL-001", &[])],
        vec![archived("QCTL-001", "2026-08-16T00:00:00")],
        vec![horizon("QCTL-002")],
    ));
    assert!(found.iter().any(|e| e.contains("duplicate id QCTL-001")), "{found:?}");
}

#[test]
fn rejects_active_that_is_not_queue_head() {
    let found = errors(&ledger(Some("QCTL-002"), vec![queued("QCTL-001", &[]), queued("QCTL-002", &[])], Vec::new(), Vec::new()));
    assert!(found.iter().any(|e| e.contains("must be queue[0]")), "{found:?}");
}

#[test]
fn rejects_blocked_active() {
    let found = errors(&ledger(
        Some("QCTL-002"),
        vec![queued("QCTL-002", &["QCTL-001"]), queued("QCTL-001", &[])],
        Vec::new(),
        Vec::new(),
    ));
    assert!(found.iter().any(|e| e.contains("is blocked")), "{found:?}");
}

#[test]
fn rejects_horizon_active() {
    let found = errors(&ledger(Some("QCTL-009"), Vec::new(), Vec::new(), vec![horizon("QCTL-009")]));
    assert!(found.iter().any(|e| e.contains("horizon")), "{found:?}");
}

#[test]
fn rejects_blocker_not_earlier_or_missing() {
    let found = errors(&ledger(
        None,
        vec![queued("QCTL-001", &["QCTL-002"]), queued("QCTL-002", &["QCTL-099"])],
        Vec::new(),
        Vec::new(),
    ));
    assert!(found.iter().any(|e| e.contains("QCTL-001 <- QCTL-002")), "{found:?}");
    assert!(found.iter().any(|e| e.contains("QCTL-002 <- QCTL-099")), "{found:?}");
}

#[test]
fn rejects_archive_not_newest_first() {
    let found = errors(&ledger(
        None,
        Vec::new(),
        vec![archived("QCTL-001", "2026-01-01T00:00:00"), archived("QCTL-002", "2026-08-16T00:00:00")],
        Vec::new(),
    ));
    assert!(found.iter().any(|e| e.contains("newest-first")), "{found:?}");
}

#[test]
fn rejects_missing_plan_path() {
    let mut row = queued("QCTL-001", &[]);
    row.plan = Some("missing-plan.md".to_string());
    let l = ledger(None, vec![row], Vec::new(), Vec::new());
    assert_eq!(plan_paths(&l), vec!["missing-plan.md".to_string()]);
    let found = graph_errors(&l, &vec![false]);
    assert!(found.iter().any(|e| e.contains("missing plan")), "{found:?}");
    assert!(graph_errors(&l, &vec![true]).iter().all(|e| !e.contains("missing plan")));
}

#[test]
fn next_id_skips_horizon_and_archive() {
    let l = ledger(None, Vec::new(), vec![archived("QCTL-002", "2026-08-16T00:00:00")], vec![horizon("QCTL-010")]);
    assert_eq!(next_id(&l).expect("id"), "QCTL-011");
    assert_eq!(next_id(&ledger(None, Vec::new(), Vec::new(), Vec::new())).expect("id"), "QCTL-001");
}

#[test]
fn archive_refuses_a_ledger_it_cannot_vouch_for() {
    let l = ledger(None, vec![queued("QCTL-002", &[])], vec![archived("QCTL-001", "last Tuesday")], Vec::new());
    let err = vouch_for("tasks.yaml", l).err().expect("the verb ran anyway");
    assert!(err.starts_with("validate tasks.yaml: "), "{err}");
    assert!(err.contains("completed"), "{err}");
}

#[test]
fn a_sound_ledger_is_vouched_for() {
    let l = ledger(None, vec![queued("QCTL-002", &[])], vec![archived("QCTL-001", "2026-08-01T09:12:00")], Vec::new());
    assert!(value_errors(&l).is_empty(), "{:?}", value_errors(&l));
    assert!(vouch_for("tasks.yaml", l).is_ok());
}

#[test]
fn value_errors_name_each_wrong_field() {
    let mut l = ledger(None, vec![queued("QCTL-1", &[])], Vec::new(), Vec::new());
    l.prefix = "qctl".to_string();
    l.queue[0].title = String::new();
    let found = value_errors(&l);
    assert!(found.iter().any(|e| e.contains("prefix")), "{found:?}");
    assert!(found.iter().any(|e| e.contains("title")), "{found:?}");
}

#[test]
fn find_task_and_show_name_the_list() {
    let l = ledger(None, vec![queued("QCTL-001", &[])], Vec::new(), vec![horizon("QCTL-002")]);
    assert!(matches!(find_task(l, "QCTL-002"), Ok(Task::Horizon { .. })));
    let l = ledger(None, vec![queued("QCTL-001", &[])], Vec::new(), Vec::new());
    assert!(find_task(l, "QCTL-404").is_err());
    let l = ledger(None, vec![queued("QCTL-001", &[])], Vec::new(), Vec::new());
    assert!(matches!(show("tasks.yaml".to_string(), l, "QCTL-001"), Ok(Report::Show { .. })));
    let l = ledger(None, Vec::new(), Vec::new(), Vec::new());
    assert!(matches!(status("tasks.yaml".to_string(), l), Report::Status { .. }));
}

#[test]
fn check_fails_when_a_trailer_closes_a_queued_id() {
    let l = ledger(None, vec![queued("QCTL-001", &[])], Vec::new(), Vec::new());
    let scan = TrailerScan::Closed(vec![("QCTL-001".to_string(), "abc".to_string())]);
    let found = trailer_errors(&l, &scan);
    assert!(found.iter().any(|e| e.contains("QCTL-001") && e.contains("still queued")), "{found:?}");
    let quiet = trailer_errors(&l, &TrailerScan::Skipped);
    assert!(quiet.iter().any(|e| e.contains("git trailer scan skipped")), "{quiet:?}");
    let failed = trailer_errors(&l, &TrailerScan::Failed("no history".to_string()));
    assert!(failed.iter().any(|e| e.contains("git trailer scan failed")), "{failed:?}");
}

#[test]
fn check_reports_problems_and_passes_a_clean_ledger() {
    let report = check_run("tasks.yaml", Vec::new()).expect("check");
    assert!(!report.message_kind_is_error());
    let err = check_run("tasks.yaml", vec!["one".to_string(), "two".to_string()]).err().expect("problems");
    assert_eq!(err, "2 problem(s) in tasks.yaml: one; two");
}

#[test]
fn a_ledger_that_is_not_yaml_names_the_file() {
    let err = findings("a: [", "{}", "tasks.yaml", Err("rows".to_string()), &Vec::new(), None).unwrap_err();
    assert!(err.starts_with("parse tasks.yaml: "), "{err}");
    let err = findings("a: 1\n", "{", "tasks.yaml", Err("rows".to_string()), &Vec::new(), None).unwrap_err();
    assert!(err.starts_with("embedded tasks.schema.json: "), "{err}");
}

#[test]
fn each_schema_violation_is_its_path_and_its_message() {
    let schema = r#"{"type":"object","properties":{"a":{"type":"string"}}}"#;
    let found = findings("a: 1\n", schema, "tasks.yaml", Err("rows".to_string()), &Vec::new(), None).expect("ran");
    assert_eq!(found.len(), 2, "{found:?}");
    assert!(found[0].starts_with("/a: "), "{found:?}");
    assert!(found[0].contains("string"), "{found:?}");
    assert_eq!(found[1], "rows");
}
