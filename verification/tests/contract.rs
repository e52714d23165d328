use qctl::ledger::value_errors;
use qctl::schema::{ArchivedTask, Disposition, HorizonTask, Kind, Ledger, QueuedTask, Style};

fn strings(items: &[&str]) -> Vec<String> {
    items.iter().map(|s| s.to_string()).collect()
}

/// One ledger using every field of every row kind, valid in all of them.
fn whole() -> Ledger {
    Ledger {
        schema_version: 4,
        prefix: "QCTL".to_string(),
        style: Style::default_style(),
        active: Some("QCTL-001".to_string()),
        queue: vec![
            QueuedTask {
                id: "QCTL-001".to_string(),
                title: "Quoted: a title with a colon".to_string(),
                scope: "qctl".to_string(),
                outcome: "A folded outcome that wraps across two lines.".to_string(),
                blocked_by: Vec::new(),
                acceptance: strings(&["It holds."]),
                patch: Some("a-changeset-name".to_string()),
                plan: None,
                links: strings(&["https://github.com/victor-software-house/qctl"]),
                notes: strings(&["Context the other fields cannot carry."]),
            },
            QueuedTask {
                id: "QCTL-002".to_string(),
                title: "Second".to_string(),
                scope: "qctl".to_string(),
                outcome: "Second outcome.".to_string(),
                blocked_by: strings(&["QCTL-001"]),
                acceptance: strings(&["It also holds."]),
                patch: None,
                plan: None,
                links: Vec::new(),
                notes: Vec::new(),
            },
        ],
        archive: vec![ArchivedTask {
            id: "QCTL-000".to_string(),
            title: "Shipped earlier".to_string(),
            scope: "qctl".to_string(),
            completed: "2026-08-01T00:00:00".to_string(),
            outcome: "It shipped.".to_string(),
            evidence: strings(&["The tag exists."]),
            disposition: Some(Disposition::Completed),
            patch: None,
            plan: None,
            links: Vec::new(),
            notes: Vec::new(),
        }],
        horizon: vec![HorizonTask {
            id: "QCTL-900".to_string(),
            title: "Someday".to_string(),
            scope: "qctl".to_string(),
            outcome: "Something would be true.".to_string(),
            kind: Kind::Research,
            open: "Nobody knows the answer yet.".to_string(),
            patch: None,
            plan: None,
            links: Vec::new(),
            notes: Vec::new(),
        }],
    }
}

fn refused(l: &Ledger, field: &str) {
    let complaints = value_errors(l);
    assert!(!complaints.is_empty(), "accepted");
    assert!(complaints.iter().any(|c| c.contains(field)), "{complaints:?}");
}

#[test]
fn the_whole_contract_is_accepted() {
    assert_eq!(value_errors(&whole()), Vec::<String>::new());
}

#[test]
fn a_paused_ledger_is_accepted() {
    let mut l = whole();
    l.active = None;
    assert_eq!(value_errors(&l), Vec::<String>::new());
}

#[test]
fn refuses_an_id_that_is_not_an_id() {
    let mut l = whole();
    l.queue[0].id = "QCTL-1".to_string();
    refused(&l, "id");
}

#[test]
fn refuses_a_lowercase_prefix() {
    let mut l = whole();
    l.prefix = "qctl".to_string();
    refused(&l, "prefix");
}

#[test]
fn refuses_an_empty_title() {
    let mut l = whole();
    l.queue[0].title = String::new();
    refused(&l, "title");
}

#[test]
fn refuses_a_row_with_nothing_to_accept() {
    let mut l = whole();
    l.queue[0].acceptance = Vec::new();
    refused(&l, "acceptance");
}

#[test]
fn refuses_a_plan_outside_the_repository() {
    let mut l = whole();
    l.queue[0].patch = None;
    l.queue[0].plan = Some("../elsewhere/plan.md".to_string());
    refused(&l, "plan");
}

#[test]
fn refuses_a_plan_that_is_not_a_document() {
    let mut l = whole();
    l.queue[0].patch = None;
    l.queue[0].plan = Some("docs/plan.txt".to_string());
    refused(&l, "plan");
}

#[test]
fn refuses_a_changeset_name_that_is_not_a_file_stem() {
    let mut l = whole();
    l.queue[0].patch = Some("A Changeset Name".to_string());
    refused(&l, "patch");
}

#[test]
fn refuses_a_completed_date_that_is_not_a_date() {
    let mut l = whole();
    l.archive[0].completed = "last Tuesday".to_string();
    refused(&l, "completed");
}

#[test]
fn refuses_a_moment_the_calendar_does_not_have() {
    let mut l = whole();
    l.archive[0].completed = "2026-02-31T00:00:00".to_string();
    refused(&l, "completed");
}

#[test]
fn refuses_a_schema_version_from_another_era() {
    let mut l = whole();
    l.schema_version = 2;
    refused(&l, "schema_version");
}

#[test]
fn refuses_a_zone_that_is_not_an_offset() {
    let mut l = whole();
    l.style.timezone = "UTC".to_string();
    refused(&l, "style.timezone");
}

#[test]
fn refuses_a_section_order_that_misses_a_list() {
    let mut l = whole();
    l.style.section_order.pop();
    refused(&l, "style.section_order");
}
