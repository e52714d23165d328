use qctl::cli::{parse_position, parse_remove, EditArgs, EditPosition, LedgerArgs, RemoveField};
use qctl::document::Document;
use qctl::edit::run;
use qctl::report::Report;
use qctl::schema::{ArchivedTask, Disposition, HorizonTask, Kind, Ledger, QueuedTask, Style};

fn strings(items: &[&str]) -> Vec<String> {
    items.iter().map(|s| s.to_string()).collect()
}

fn queued(id: &str, title: &str, blocked_by: &[&str], notes: &[&str], links: &[&str]) -> QueuedTask {
    QueuedTask {
        id: id.to_string(),
        title: title.to_string(),
        scope: "core".to_string(),
        outcome: "o".to_string(),
        blocked_by: strings(blocked_by),
        acceptance: strings(&["It holds."]),
        patch: None,
        plan: None,
        links: strings(links),
        notes: strings(notes),
    }
}

fn ledger(active: Option<&str>, queue: Vec<QueuedTask>, archive: Vec<ArchivedTask>, horizon: Vec<HorizonTask>) -> Ledger {
    Ledger {
        schema_version: 4,
        prefix: "QCTL".to_string(),
        style: Style::default_style(),
        active: active.map(|a| a.to_string()),
        queue,
        archive,
        horizon,
    }
}

fn edit_args(id: &str) -> EditArgs {
    EditArgs {
        id: id.to_string(),
        ledger: LedgerArgs { file: None },
        title: None,
        scope: None,
        outcome: None,
        kind: None,
        open: None,
        patch: None,
        plan: None,
        unset: Vec::new(),
        acceptance: Vec::new(),
        note: Vec::new(),
        links: Vec::new(),
        blocked_by: Vec::new(),
        evidence: Vec::new(),
        remove: Vec::new(),
        reorder_notes: None,
        position: None,
    }
}

const EDITABLE: &str = "schema_version: 4
prefix: QCTL
active: QCTL-001
queue:
  - id: QCTL-001
    title: Old
    scope: core
    outcome: Keep the outcome.
    blocked_by: []
    acceptance: [It holds.]
    notes:
      - First note.
      - Second note.
    links: [https://old.example/a:b]

  - id: QCTL-002
    title: Untouched
    scope: other
    outcome: This row stays byte-identical.
    blocked_by: []
    acceptance: [It holds.]
archive: []
horizon: []
";

#[test]
fn queued_edit_updates_only_requested_fields_and_preserves_flow_lists() {
    let l = ledger(
        Some("QCTL-001"),
        vec![
            queued("QCTL-001", "Old", &[], &["First note.", "Second note."], &["https://old.example/a:b"]),
            queued("QCTL-002", "Untouched", &[], &[], &[]),
        ],
        Vec::new(),
        Vec::new(),
    );
    let untouched_before = EDITABLE.split_once("  - id: QCTL-002").expect("second row").1.to_owned();
    let mut args = edit_args("QCTL-001");
    args.title = Some("New".to_string());
    args.note = strings(&["Third note."]);
    args.acceptance = strings(&["A second condition."]);
    args.links = strings(&["https://new.example"]);
    args.remove = vec![
        parse_remove("note:1").expect("note selector"),
        parse_remove("link:https://old.example/a:b").expect("link selector"),
    ];
    args.reorder_notes = Some("1".to_string());
    let mut document = Document::new(EDITABLE.to_string());
    let (report, changed) = run(&args, "tasks.yaml", &l, &mut document, false).expect("edit");
    assert!(changed);
    assert!(matches!(report, Report::Edited { ref id, .. } if id == "QCTL-001"));
    let body = document.into_source();
    assert!(body.contains("title: New"), "{body}");
    assert!(body.contains("acceptance: [It holds., A second condition.]"), "{body}");
    assert!(!body.contains("First note."), "{body}");
    assert!(body.contains("- Second note."), "{body}");
    assert!(body.contains("- Third note."), "{body}");
    assert!(!body.contains("https://old.example/a:b"), "{body}");
    assert!(body.contains("links: [https://new.example]"), "{body}");
    let untouched_after = body.split_once("  - id: QCTL-002").expect("second row").1;
    assert_eq!(untouched_after, untouched_before);
}

const THREE_QUEUED: &str = "schema_version: 4
prefix: QCTL
active: QCTL-001
queue:
  - id: QCTL-001
    title: First
    scope: core
    outcome: First.
    blocked_by: []
    acceptance: [It holds.]
  - id: QCTL-002
    title: Second
    scope: core
    outcome: Second.
    blocked_by: [QCTL-001]
    acceptance: [It holds.]
  - id: QCTL-003
    title: Third
    scope: core
    outcome: Third.
    blocked_by: []
    acceptance: [It holds.]
archive: []
horizon: []
";

fn three_queued() -> Ledger {
    ledger(
        Some("QCTL-001"),
        vec![
            queued("QCTL-001", "First", &[], &[], &[]),
            queued("QCTL-002", "Second", &["QCTL-001"], &[], &[]),
            queued("QCTL-003", "Third", &[], &[], &[]),
        ],
        Vec::new(),
        Vec::new(),
    )
}

#[test]
fn queue_position_revalidates_every_dependency() {
    let mut args = edit_args("QCTL-003");
    args.blocked_by = strings(&["QCTL-002"]);
    args.position = Some(parse_position("after:QCTL-002").expect("position"));
    let mut document = Document::new(THREE_QUEUED.to_string());
    run(&args, "tasks.yaml", &three_queued(), &mut document, false).expect("moved");
    let body = document.into_source();
    assert!(body.find("id: QCTL-002") < body.find("id: QCTL-003"), "{body}");

    let mut args = edit_args("QCTL-002");
    args.position = Some(parse_position("after:QCTL-003").expect("position"));
    let moved = ledger(
        Some("QCTL-001"),
        vec![
            queued("QCTL-001", "First", &[], &[], &[]),
            queued("QCTL-002", "Second", &["QCTL-001"], &[], &[]),
            queued("QCTL-003", "Third", &["QCTL-002"], &[], &[]),
        ],
        Vec::new(),
        Vec::new(),
    );
    let mut again = Document::new(body.clone());
    let err = run(&args, "tasks.yaml", &moved, &mut again, false).err().expect("refused");
    assert!(err.contains("QCTL-003 <- QCTL-002 is not earlier"), "{err}");
    assert_eq!(again.into_source(), body);
}

#[test]
fn a_row_cannot_move_behind_its_dependent() {
    let mut args = edit_args("QCTL-001");
    args.position = Some(parse_position("after:QCTL-002").expect("position"));
    let mut document = Document::new(THREE_QUEUED.replace("active: QCTL-001", "active: null"));
    let l = ledger(
        None,
        vec![
            queued("QCTL-001", "First", &[], &[], &[]),
            queued("QCTL-002", "Second", &["QCTL-001"], &[], &[]),
            queued("QCTL-003", "Third", &[], &[], &[]),
        ],
        Vec::new(),
        Vec::new(),
    );
    let err = run(&args, "tasks.yaml", &l, &mut document, false).err().expect("refused");
    assert!(err.contains("QCTL-002 <- QCTL-001 is not earlier"), "{err}");
}

const KINDS: &str = "schema_version: 4
prefix: QCTL
active: null
queue: []
archive:
  - id: QCTL-001
    title: Done
    scope: core
    completed: 2026-08-01T09:12:00
    outcome: Done.
    evidence: [landed]
    notes: [Keep]
    links: [https://example.com]
horizon:
  - id: QCTL-002
    title: Later
    scope: core
    kind: research
    outcome: Later.
    open: Need a fact.
    notes: [Old]
";

fn kinds() -> Ledger {
    ledger(
        None,
        Vec::new(),
        vec![ArchivedTask {
            id: "QCTL-001".to_string(),
            title: "Done".to_string(),
            scope: "core".to_string(),
            completed: "2026-08-01T09:12:00".to_string(),
            outcome: "Done.".to_string(),
            evidence: strings(&["landed"]),
            disposition: None::<Disposition>,
            patch: None,
            plan: None,
            links: strings(&["https://example.com"]),
            notes: strings(&["Keep"]),
        }],
        vec![HorizonTask {
            id: "QCTL-002".to_string(),
            title: "Later".to_string(),
            scope: "core".to_string(),
            outcome: "Later.".to_string(),
            kind: Kind::Research,
            open: "Need a fact.".to_string(),
            patch: None,
            plan: None,
            links: Vec::new(),
            notes: strings(&["Old"]),
        }],
    )
}

#[test]
fn row_kind_policy_is_explicit() {
    let mut args = edit_args("QCTL-001");
    args.note = strings(&["New"]);
    args.evidence = strings(&["verified"]);
    args.remove = vec![parse_remove("note:Keep").unwrap(), parse_remove("link:1").unwrap()];
    let mut document = Document::new(KINDS.to_string());
    run(&args, "tasks.yaml", &kinds(), &mut document, false).expect("archive rows take notes, evidence and links");
    let body = document.into_source();
    let value: serde_yml::Value = serde_yml::from_str(&body).expect("reads");
    assert_eq!(value["archive"][0]["evidence"][1].as_str(), Some("verified"));
    assert_eq!(value["archive"][0]["notes"][0].as_str(), Some("New"));

    let mut title = edit_args("QCTL-001");
    title.title = Some("Nope".to_string());
    let mut document = Document::new(KINDS.to_string());
    let err = run(&title, "tasks.yaml", &kinds(), &mut document, false).err().expect("refused");
    assert!(err.contains("note, evidence, and link"), "{err}");

    let mut front = edit_args("QCTL-002");
    front.position = Some(EditPosition::Front);
    let mut document = Document::new(KINDS.to_string());
    let err = run(&front, "tasks.yaml", &kinds(), &mut document, false).err().expect("refused");
    assert!(err.contains("horizon rows do not accept --position"), "{err}");
}

#[test]
fn id_completed_and_unknown_remove_fields_are_not_editable() {
    let err = parse_remove("title:value").err().expect("refused");
    assert!(err.contains("remove field must be"), "{err}");
    let spec = parse_remove("blocked-by:QCTL-001").expect("blocked-by");
    assert_eq!(spec.field, RemoveField::BlockedBy);
    assert_eq!(spec.selector, "QCTL-001");
    assert!(parse_remove("note").is_err());
    assert!(parse_remove("note:").is_err());
}

#[test]
fn positions_are_front_back_or_relative_to_an_id() {
    assert!(matches!(parse_position("front"), Ok(EditPosition::Front)));
    assert!(matches!(parse_position("back"), Ok(EditPosition::Back)));
    assert!(matches!(parse_position("before:QCTL-002"), Ok(EditPosition::Before(ref id)) if id == "QCTL-002"));
    assert!(parse_position("sideways").is_err());
    assert!(parse_position("after:").is_err());
}

#[test]
fn edit_uses_the_same_note_item_policy() {
    let source = "schema_version: 4
prefix: QCTL
active: null
queue:
  - id: QCTL-001
    title: t
    scope: s
    outcome: o
    blocked_by: []
    acceptance: [a]
    notes: [Existing.]
archive: []
horizon: []
";
    let l = ledger(None, vec![queued("QCTL-001", "t", &[], &["Existing."], &[])], Vec::new(), Vec::new());
    let mut args = edit_args("QCTL-001");
    args.note = strings(&["Context: added.", "Line one.\nLine two."]);
    let mut document = Document::new(source.to_string());
    run(&args, "tasks.yaml", &l, &mut document, false).expect("edit");
    let body = document.into_source();
    assert!(body.contains("- Existing."), "{body}");
    assert!(body.contains("- >2-\n        Context: added."), "{body}");
    assert!(body.contains("- |2-\n        Line one.\n        Line two."), "{body}");
}

#[test]
fn notes_in_a_flow_list_stay_a_flow_list() {
    let source = "schema_version: 4
prefix: QCTL
active: null
queue:
  - id: QCTL-001
    title: t
    scope: s
    outcome: o
    blocked_by: []
    acceptance: [a]
    notes: [Existing.]
archive: []
horizon: []
";
    let l = ledger(None, vec![queued("QCTL-001", "t", &[], &["Existing."], &[])], Vec::new(), Vec::new());
    let mut args = edit_args("QCTL-001");
    args.note = strings(&["Added."]);
    let mut document = Document::new(source.to_string());
    run(&args, "tasks.yaml", &l, &mut document, false).expect("edit");
    let body = document.into_source();
    assert!(body.contains("    notes: [Existing., Added.]\n"), "{body}");
}

#[test]
fn editing_an_unknown_id_is_refused() {
    let mut args = edit_args("QCTL-404");
    args.title = Some("x".to_string());
    let mut document = Document::new(THREE_QUEUED.to_string());
    assert!(run(&args, "tasks.yaml", &three_queued(), &mut document, false).is_err());
    assert_eq!(document.into_source(), THREE_QUEUED);
}
