use qctl::document::Document;
use qctl::format::{changes, formatted, newest_first, normalized, paragraphs, tidied, upgrade};
use qctl::ledger::{stale_schema_for, stale_schema_message};
use qctl::report::Report;
use qctl::schema::{ArchiveOrder, ArchivedTask, Disposition, Ledger, Section, Style};

fn tidy(text: &str) -> String {
    let chars: Vec<char> = text.chars().collect();
    tidied(&chars).into_iter().collect()
}

fn archived(id: &str, completed: &str) -> ArchivedTask {
    ArchivedTask {
        id: id.to_string(),
        title: "t".to_string(),
        scope: "s".to_string(),
        completed: completed.to_string(),
        outcome: "o".to_string(),
        evidence: vec!["e".to_string()],
        disposition: Some(Disposition::Completed),
        patch: None,
        plan: None,
        links: Vec::new(),
        notes: Vec::new(),
    }
}

fn ledger_with_archive(archive: Vec<ArchivedTask>) -> Ledger {
    Ledger {
        schema_version: 4,
        prefix: "QCTL".to_string(),
        style: Style::default_style(),
        active: None,
        queue: Vec::new(),
        archive,
        horizon: Vec::new(),
    }
}

#[test]
fn tidying_drops_the_whitespace_nobody_chose() {
    assert_eq!(tidy("a: 1   \n\n\nb:\n\n  - x\n\n"), "a: 1\n\nb:\n  - x\n");
    assert_eq!(tidy("a: 1"), "a: 1\n");
    assert_eq!(tidy(""), "");
}

#[test]
fn tidying_twice_changes_nothing_more() {
    let once = tidy("queue:\n\n  - id: X   \n\n\n\narchive: []\n\n\n");
    assert_eq!(tidy(&once), once);
}

#[test]
fn tidying_keeps_a_block_scalar_as_written() {
    let text = "queue:\n  - id: X\n    scope: |\n      two spaces after  \n\n\n      and a gap\n    title: t   \n";
    assert_eq!(
        tidy(text),
        "queue:\n  - id: X\n    scope: |\n      two spaces after  \n\n\n      and a gap\n    title: t\n"
    );
    assert_eq!(tidy(&tidy(text)), tidy(text));
}

#[test]
fn a_block_scalar_ends_at_a_line_indented_no_further() {
    assert_eq!(tidy("a: >-\n  x  \nb: 1  \n\n\nc: 2\n"), "a: >-\n  x  \nb: 1\n\nc: 2\n");
    assert_eq!(tidy("a: 'x |'  \n  y  \n"), "a: 'x |'\n  y\n");
}

#[test]
fn changes_name_each_line_that_differs() {
    assert_eq!(changes("a\nb\n", "a\nc\n"), vec![r#"line 2: "b" would be "c""#.to_string()]);
    assert_eq!(changes("a\nb\n", "a\n"), vec!["2 lines, would be 1".to_string()]);
    assert!(changes("a\n", "a\n").is_empty());
}

#[test]
fn paragraphs_split_at_blank_lines() {
    assert_eq!(
        paragraphs("First paragraph.\n\n  Second paragraph.\n\n\n"),
        vec!["First paragraph.".to_string(), "Second paragraph.".to_string()]
    );
    assert!(paragraphs("\n\n").is_empty());
}

#[test]
fn newest_first_orders_the_archive_by_completion() {
    let l = ledger_with_archive(vec![
        archived("QCTL-001", "2026-08-01T10:00:00Z"),
        archived("QCTL-003", "2026-08-03T10:00:00Z"),
        archived("QCTL-002", "2026-08-01T10:00:00Z"),
    ]);
    assert_eq!(newest_first(&l), vec!["QCTL-003", "QCTL-001", "QCTL-002"]);
}

#[test]
fn normalize_sorts_the_archive_and_keeps_the_rest() {
    let source = "schema_version: 4
prefix: QCTL
active: null
queue: []
archive:
  - id: QCTL-001
    title: t
    scope: s
    completed: 2026-08-01T10:00:00Z
    outcome: o
    evidence: [e]
  - id: QCTL-002
    title: t
    scope: s
    completed: 2026-08-02T10:00:00Z
    outcome: o
    evidence: [e]
horizon: []
";
    let l = ledger_with_archive(vec![
        archived("QCTL-001", "2026-08-01T10:00:00Z"),
        archived("QCTL-002", "2026-08-02T10:00:00Z"),
    ]);
    let out = normalized(source, &l).expect("normalize");
    assert_eq!(normalized(&out, &l).expect("normalize again"), out);
    let second = out.find("id: QCTL-002").expect("row 2");
    let first = out.find("id: QCTL-001").expect("row 1");
    assert!(second < first, "{out}");
    assert!(out.starts_with("schema_version: 4\nprefix: QCTL\nactive: null\nqueue: []\narchive:\n  - id: QCTL-002\n"));
    assert!(out.ends_with("horizon: []\n"));
}

#[test]
fn normalize_follows_the_declared_section_order_and_indent() {
    let source = "schema_version: 4
prefix: QCTL
active: null
queue: []
archive: []
horizon: []
";
    let mut l = ledger_with_archive(Vec::new());
    l.style.section_order = vec![Section::Horizon, Section::Queue, Section::Archive];
    l.style.archive_order = ArchiveOrder::AsWritten;
    let out = normalized(source, &l).expect("normalize");
    let h = out.find("horizon:").unwrap();
    let q = out.find("queue:").unwrap();
    let a = out.find("archive:").unwrap();
    assert!(h < q && q < a, "{out}");
}

#[test]
fn fmt_reports_the_lines_it_would_change_under_check() {
    let (report, write) = formatted("tasks.yaml", "a\nb\n", "a\nc\n", true);
    assert!(!write);
    match report {
        Report::Formatted { path, changed, check, differences } => {
            assert_eq!(path, "tasks.yaml");
            assert!(changed && check);
            assert_eq!(differences.len(), 1);
        }
        _ => panic!("not a fmt report"),
    }
    let (report, write) = formatted("tasks.yaml", "a\n", "a\n", false);
    assert!(!write);
    assert!(!report.message_kind_is_error());
    let (_, write) = formatted("tasks.yaml", "a\nb\n", "a\nc\n", false);
    assert!(write);
}

#[test]
fn fmt_rewrites_v3_scalar_notes_into_a_list() {
    let source = "schema_version: 3
prefix: QCTL
active: null
queue:
  - id: QCTL-001
    title: t
    scope: s
    outcome: o
    blocked_by: []
    acceptance: [It holds.]
    notes: |-
      First paragraph.

      Second paragraph.
archive: []
horizon: []
";
    let mut document = Document::new(source.to_string());
    upgrade(&mut document).expect("upgrade");
    let body = document.into_source();
    assert!(body.contains("schema_version: 4"), "{body}");
    assert_eq!(body.matches("- |-").count(), 2, "{body}");
    assert!(body.contains("First paragraph."), "{body}");
    assert!(body.contains("Second paragraph."), "{body}");
    let value: serde_yml::Value = serde_yml::from_str(&body).expect("reads");
    assert_eq!(value["queue"][0]["notes"][1].as_str(), Some("Second paragraph."));
}

#[test]
fn upgrade_leaves_a_current_file_alone_and_refuses_other_versions() {
    let source = "schema_version: 4\nprefix: QCTL\n";
    let mut document = Document::new(source.to_string());
    upgrade(&mut document).expect("current");
    assert_eq!(document.into_source(), source);
    let mut document = Document::new("schema_version: 2\n".to_string());
    let err = upgrade(&mut document).err().expect("refused");
    assert_eq!(err, "schema_version 2 must be 4 (or 3, which fmt rewrites)");
    assert_eq!(document.into_source(), "schema_version: 2\n");
}

#[test]
fn other_verbs_refuse_schema_3_and_name_fmt() {
    let message = stale_schema_message("schema_version: 3\nprefix: QCTL\n", "tasks.yaml").expect("refused");
    assert!(message.contains("qctl fmt"), "{message}");
    assert_eq!(stale_schema_for(Some(2), "t.yaml").as_deref(), Some("t.yaml: schema_version 2 must be 4"));
    assert_eq!(stale_schema_for(Some(4), "t.yaml"), None);
    assert_eq!(stale_schema_for(None, "t.yaml"), None);
    assert_eq!(stale_schema_message("schema_version: 4\n", "t.yaml"), None);
    assert_eq!(stale_schema_message("prefix: [unclosed", "t.yaml"), None);
}

#[test]
fn the_upgrade_finds_every_string_note_in_every_list() {
    let source = "schema_version: 3
prefix: QCTL
active: null
queue:
  - id: QCTL-002
    title: t
    scope: s
    outcome: o
    blocked_by: []
    acceptance: [a]
    notes: One.
archive:
  - id: QCTL-001
    title: t
    scope: s
    completed: 2026-08-01T00:00:00
    outcome: o
    evidence: [e]
    notes: |-
      Two.

      Three.
horizon: []
";
    let notes = qctl::format::scalar_notes_of(source);
    assert_eq!(
        notes,
        vec![
            ("queue".to_string(), 0usize, "One.".to_string()),
            ("archive".to_string(), 0usize, "Two.\n\nThree.".to_string()),
        ]
    );
    let mut document = Document::new(source.to_string());
    upgrade(&mut document).expect("upgrade");
    let value: serde_yml::Value = serde_yml::from_str(&document.into_source()).expect("reads");
    assert_eq!(value["schema_version"].as_u64(), Some(4));
    assert_eq!(value["queue"][0]["notes"][0].as_str(), Some("One."));
    assert_eq!(value["archive"][0]["notes"][1].as_str(), Some("Three."));
}
