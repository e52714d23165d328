use qctl::cli::{AddArgs, ArchiveArgs, Disposition, IdArgs, LedgerArgs, ParkArgs, PromoteArgs};
use qctl::document::Document;
use qctl::mutate::{add, archive, park, promote, start};
use qctl::report::{Destination, Report};
use qctl::schema::{ArchivedTask, HorizonTask, Kind, Ledger, QueuedTask, Style};

const TWO_QUEUED: &str = "schema_version: 4
prefix: QCTL
active: null
queue:
  - id: QCTL-001
    title: First
    scope: qctl
    outcome: done
    blocked_by: []
    acceptance: [shipped]
  - id: QCTL-002
    title: Second
    scope: qctl
    outcome: done
    blocked_by: [QCTL-001]
    acceptance: [shipped]
archive: []
horizon:
  - id: QCTL-009
    title: Someday
    scope: qctl
    outcome: maybe
    kind: evaluation
    open: Which way?
";

fn strings(items: &[&str]) -> Vec<String> {
    items.iter().map(|s| s.to_string()).collect()
}

fn queued(id: &str, title: &str, blocked_by: &[&str]) -> QueuedTask {
    QueuedTask {
        id: id.to_string(),
        title: title.to_string(),
        scope: "qctl".to_string(),
        outcome: "done".to_string(),
        blocked_by: strings(blocked_by),
        acceptance: strings(&["shipped"]),
        patch: None,
        plan: None,
        links: Vec::new(),
        notes: Vec::new(),
    }
}

fn horizon(id: &str) -> HorizonTask {
    HorizonTask {
        id: id.to_string(),
        title: "Someday".to_string(),
        scope: "qctl".to_string(),
        outcome: "maybe".to_string(),
        kind: Kind::Evaluation,
        open: "Which way?".to_string(),
        patch: None,
        plan: None,
        links: Vec::new(),
        notes: Vec::new(),
    }
}

fn ledger(active: Option<&str>) -> Ledger {
    Ledger {
        schema_version: 4,
        prefix: "QCTL".to_string(),
        style: Style::default_style(),
        active: active.map(|a| a.to_string()),
        queue: vec![queued("QCTL-001", "First", &[]), queued("QCTL-002", "Second", &["QCTL-001"])],
        archive: Vec::<ArchivedTask>::new(),
        horizon: vec![horizon("QCTL-009")],
    }
}

fn add_args(title: &str) -> AddArgs {
    AddArgs {
        ledger: LedgerArgs { file: None },
        title: title.to_string(),
        scope: "qctl".to_string(),
        outcome: "done".to_string(),
        acceptance: strings(&["it holds"]),
        patch: None,
        note: Vec::new(),
        blocked_by: Vec::new(),
        plan: None,
        links: Vec::new(),
        after: None,
        before: None,
        horizon: false,
        kind: None,
        open: None,
    }
}

fn id_args(id: &str) -> IdArgs {
    IdArgs { id: id.to_string(), ledger: LedgerArgs { file: None } }
}

fn parsed(text: &str) -> serde_yml::Value {
    serde_yml::from_str(text).expect("the edited ledger reads as YAML")
}

fn queue_ids(text: &str) -> Vec<String> {
    let value = parsed(text);
    value["queue"]
        .as_sequence()
        .expect("queue")
        .iter()
        .map(|row| row["id"].as_str().expect("id").to_string())
        .collect()
}

#[test]
fn add_appends_a_queued_row_with_the_next_id() {
    let mut document = Document::new(TWO_QUEUED.to_string());
    let report = add(&add_args("Third"), "tasks.yaml", &ledger(None), &mut document, false).expect("add");
    match report {
        Report::Added { path, id, destination } => {
            assert_eq!(path, "tasks.yaml");
            assert_eq!(id, "QCTL-010");
            assert_eq!(destination, Destination::Queue);
        }
        _ => panic!("not an add report"),
    }
    let text = document.into_source();
    assert_eq!(queue_ids(&text), ["QCTL-001", "QCTL-002", "QCTL-010"]);
    let value = parsed(&text);
    assert_eq!(value["queue"][2]["title"].as_str(), Some("Third"));
    assert_eq!(value["queue"][2]["acceptance"][0].as_str(), Some("it holds"));
    assert!(text.starts_with(&TWO_QUEUED[..TWO_QUEUED.find("archive:").unwrap()]));
}

#[test]
fn add_before_places_the_row_and_leaves_the_others_alone() {
    let mut document = Document::new(TWO_QUEUED.to_string());
    let mut args = add_args("Urgent");
    args.before = Some("QCTL-002".to_string());
    add(&args, "tasks.yaml", &ledger(None), &mut document, false).expect("add");
    let text = document.into_source();
    assert_eq!(queue_ids(&text), ["QCTL-001", "QCTL-010", "QCTL-002"]);
    assert!(text.contains("  - id: QCTL-002\n    title: Second\n    scope: qctl\n    outcome: done\n    blocked_by: [QCTL-001]\n    acceptance: [shipped]\n"));
}

#[test]
fn add_refuses_to_displace_the_active_row() {
    let mut document = Document::new(TWO_QUEUED.replace("active: null", "active: QCTL-001"));
    let mut args = add_args("Urgent");
    args.before = Some("QCTL-001".to_string());
    let err = add(&args, "tasks.yaml", &ledger(Some("QCTL-001")), &mut document, false)
        .err()
        .expect("refused");
    assert_eq!(err, "add --before QCTL-001 would make QCTL-010 queue[0] while active is QCTL-001");
}

#[test]
fn add_to_the_queue_needs_acceptance() {
    let mut document = Document::new(TWO_QUEUED.to_string());
    let mut args = add_args("Vague");
    args.acceptance = Vec::new();
    let err = add(&args, "tasks.yaml", &ledger(None), &mut document, false).err().expect("refused");
    assert_eq!(err, "add to the queue needs --acceptance");
    assert_eq!(document.into_source(), TWO_QUEUED);
}

#[test]
fn add_to_the_horizon_needs_a_kind_and_an_open_question() {
    let mut document = Document::new(TWO_QUEUED.to_string());
    let mut args = add_args("Later");
    args.acceptance = Vec::new();
    args.horizon = true;
    let err = add(&args, "tasks.yaml", &ledger(None), &mut document, false).err().expect("refused");
    assert_eq!(err, "--horizon needs --kind");
    args.kind = Some(Kind::Research);
    let err = add(&args, "tasks.yaml", &ledger(None), &mut document, false).err().expect("refused");
    assert_eq!(err, "--horizon needs --open");
    args.open = Some("What is known?".to_string());
    let report = add(&args, "tasks.yaml", &ledger(None), &mut document, false).expect("add");
    assert!(matches!(report, Report::Added { destination: Destination::Horizon, .. }));
    let value = parsed(&document.into_source());
    assert_eq!(value["horizon"][1]["id"].as_str(), Some("QCTL-010"));
    assert_eq!(value["horizon"][1]["kind"].as_str(), Some("research"));
    assert_eq!(value["horizon"][1]["open"].as_str(), Some("What is known?"));
}

#[test]
fn add_refuses_a_plan_that_is_not_there() {
    let mut document = Document::new(TWO_QUEUED.to_string());
    let mut args = add_args("Planned");
    args.plan = Some("docs/plan.md".to_string());
    assert!(add(&args, "tasks.yaml", &ledger(None), &mut document, false).is_err());
    assert!(add(&args, "tasks.yaml", &ledger(None), &mut document, true).is_ok());
}

#[test]
fn add_refuses_a_blocker_that_is_not_earlier() {
    let mut document = Document::new(TWO_QUEUED.to_string());
    let mut args = add_args("Early");
    args.before = Some("QCTL-001".to_string());
    args.blocked_by = strings(&["QCTL-002"]);
    assert!(add(&args, "tasks.yaml", &ledger(None), &mut document, false).is_err());
    assert_eq!(document.into_source(), TWO_QUEUED);
}

#[test]
fn start_refuses_blocked_or_horizon() {
    let mut document = Document::new(TWO_QUEUED.to_string());
    let err = start(&id_args("QCTL-002"), "tasks.yaml", &ledger(None), &mut document).err().expect("refused");
    assert_eq!(err, "QCTL-002 is blocked");
    let err = start(&id_args("QCTL-009"), "tasks.yaml", &ledger(None), &mut document).err().expect("refused");
    assert_eq!(err, "QCTL-009 is not queued");
    assert_eq!(document.into_source(), TWO_QUEUED);
}

#[test]
fn start_names_the_row_active_at_the_head_of_the_queue() {
    let mut document = Document::new(TWO_QUEUED.to_string());
    let report = start(&id_args("QCTL-001"), "tasks.yaml", &ledger(None), &mut document).expect("start");
    assert!(matches!(report, Report::Started { ref id, .. } if id == "QCTL-001"));
    let text = document.into_source();
    assert_eq!(text, TWO_QUEUED.replace("active: null", "active: QCTL-001"));
}

#[test]
fn archive_moves_the_row_and_unblocks_the_rest() {
    let mut document = Document::new(TWO_QUEUED.to_string());
    let args = ArchiveArgs {
        id: "QCTL-001".to_string(),
        ledger: LedgerArgs { file: None },
        evidence: strings(&["landed"]),
        disposition: Disposition::Completed,
    };
    let report = archive(&args, "tasks.yaml", &ledger(None), &mut document, Ok("2026-08-17T09:12:00Z".to_string()))
        .expect("archive");
    assert!(matches!(report, Report::Archived { ref id, .. } if id == "QCTL-001"));
    let text = document.into_source();
    let value = parsed(&text);
    assert_eq!(queue_ids(&text), ["QCTL-002"]);
    assert_eq!(value["queue"][0]["blocked_by"].as_sequence().map(|s| s.len()), Some(0));
    assert_eq!(value["archive"][0]["id"].as_str(), Some("QCTL-001"));
    assert_eq!(value["archive"][0]["completed"].as_str(), Some("2026-08-17T09:12:00Z"));
    assert_eq!(value["archive"][0]["evidence"][0].as_str(), Some("landed"));
    assert!(text.contains("disposition: completed"));
}

#[test]
fn archive_refuses_a_row_that_is_not_queued() {
    let mut document = Document::new(TWO_QUEUED.to_string());
    let args = ArchiveArgs {
        id: "QCTL-009".to_string(),
        ledger: LedgerArgs { file: None },
        evidence: strings(&["landed"]),
        disposition: Disposition::Completed,
    };
    let err = archive(&args, "tasks.yaml", &ledger(None), &mut document, Ok("2026-08-17T09:12:00Z".to_string()))
        .err()
        .expect("refused");
    assert_eq!(err, "QCTL-009 is not queued");
    assert_eq!(document.into_source(), TWO_QUEUED);
}

#[test]
fn archive_passes_on_a_clock_that_could_not_be_read() {
    let mut document = Document::new(TWO_QUEUED.to_string());
    let args = ArchiveArgs {
        id: "QCTL-001".to_string(),
        ledger: LedgerArgs { file: None },
        evidence: strings(&["landed"]),
        disposition: Disposition::Completed,
    };
    let err = archive(&args, "tasks.yaml", &ledger(None), &mut document, Err("no clock".to_string()))
        .err()
        .expect("refused");
    assert_eq!(err, "no clock");
}

#[test]
fn park_refuses_a_row_another_row_waits_on() {
    let mut document = Document::new(TWO_QUEUED.to_string());
    let args = ParkArgs {
        id: "QCTL-001".to_string(),
        ledger: LedgerArgs { file: None },
        kind: Kind::Deferred,
        open: "After the release.".to_string(),
    };
    assert!(park(&args, "tasks.yaml", &ledger(None), &mut document).is_err());
    assert_eq!(document.into_source(), TWO_QUEUED);
}

#[test]
fn park_moves_a_queued_row_to_the_horizon() {
    let mut document = Document::new(TWO_QUEUED.to_string());
    let args = ParkArgs {
        id: "QCTL-002".to_string(),
        ledger: LedgerArgs { file: None },
        kind: Kind::Deferred,
        open: "After the release.".to_string(),
    };
    let report = park(&args, "tasks.yaml", &ledger(None), &mut document).expect("park");
    assert!(matches!(report, Report::Parked { ref id, .. } if id == "QCTL-002"));
    let text = document.into_source();
    let value = parsed(&text);
    assert_eq!(queue_ids(&text), ["QCTL-001"]);
    let rows = value["horizon"].as_sequence().expect("horizon");
    let row = rows.iter().find(|r| r["id"].as_str() == Some("QCTL-002")).expect("parked row");
    assert_eq!(row["kind"].as_str(), Some("deferred"));
    assert_eq!(row["open"].as_str(), Some("After the release."));
    assert!(row.get("acceptance").is_none());
    assert!(row.get("blocked_by").is_none());
}

#[test]
fn promote_moves_a_horizon_row_to_the_queue() {
    let mut document = Document::new(TWO_QUEUED.to_string());
    let args = PromoteArgs {
        id: "QCTL-009".to_string(),
        ledger: LedgerArgs { file: None },
        acceptance: strings(&["It is decided."]),
        blocked_by: strings(&["QCTL-002"]),
    };
    let report = promote(&args, "tasks.yaml", &ledger(None), &mut document).expect("promote");
    assert!(matches!(report, Report::Promoted { ref id, .. } if id == "QCTL-009"));
    let text = document.into_source();
    let value = parsed(&text);
    assert_eq!(queue_ids(&text), ["QCTL-001", "QCTL-002", "QCTL-009"]);
    assert_eq!(value["queue"][2]["acceptance"][0].as_str(), Some("It is decided."));
    assert!(value["queue"][2].get("kind").is_none());
    assert!(value["queue"][2].get("open").is_none());
    assert_eq!(value["horizon"].as_sequence().map(|s| s.len()), Some(0));
}

#[test]
fn promote_needs_acceptance() {
    let mut document = Document::new(TWO_QUEUED.to_string());
    let args = PromoteArgs {
        id: "QCTL-009".to_string(),
        ledger: LedgerArgs { file: None },
        acceptance: Vec::new(),
        blocked_by: Vec::new(),
    };
    assert!(promote(&args, "tasks.yaml", &ledger(None), &mut document).is_err());
    assert_eq!(document.into_source(), TWO_QUEUED);
}
