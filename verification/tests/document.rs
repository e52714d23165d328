use qctl::document::render::FieldValue;
use qctl::document::yaml::Scalar;
use qctl::document::{must_still_parse, Document, KeyShape};

const LEDGER: &str = "schema_version: 4
prefix: QCTL
active: null
# the plan for the quarter
queue:
  - id: QCTL-001
    title: First
    blocked_by: []

  # waiting on review
  - id: QCTL-002
    title: Second
    blocked_by: [QCTL-001]
archive: []
horizon: []
";

#[test]
fn a_text_that_is_not_yaml_is_never_written() {
    assert!(must_still_parse("a: [unclosed\n").is_err());
    assert_eq!(
        must_still_parse("a: [unclosed\n").err().as_deref(),
        Some("this edit would leave a file that is not valid YAML")
    );
    assert!(must_still_parse(LEDGER).is_ok());
}

#[test]
fn ids_and_positions_follow_the_file() {
    let document = Document::new(LEDGER.to_string());
    assert!(document.readable());
    assert_eq!(document.ids("queue").expect("ids"), vec!["QCTL-001", "QCTL-002"]);
    assert_eq!(document.position_of("queue", "QCTL-002").expect("position"), 1);
    assert!(document.position_of("queue", "QCTL-404").is_err());
    assert_eq!(document.rows("queue").expect("rows").len(), 2);
    assert!(document.ids("archive").expect("ids").is_empty());
}

#[test]
fn cutting_a_row_takes_its_comment_and_leaves_the_rest() {
    let mut document = Document::new(LEDGER.to_string());
    let row = document.cut("queue", "QCTL-002").expect("cut");
    assert!(row.contains("id: QCTL-002"), "{row}");
    assert!(row.contains("waiting on review"), "{row}");
    let text = document.into_source();
    assert!(!text.contains("QCTL-002"), "{text}");
    assert!(text.contains("# the plan for the quarter\nqueue:\n  - id: QCTL-001\n    title: First\n"), "{text}");
}

#[test]
fn moving_a_row_to_the_front_changes_only_its_place() {
    let mut document = Document::new(LEDGER.to_string());
    document.move_to_front("queue", "QCTL-002").expect("move");
    let text = document.into_source();
    assert_eq!(
        text.lines().filter(|l| !l.trim().is_empty()).count(),
        LEDGER.lines().filter(|l| !l.trim().is_empty()).count()
    );
    let moved = text.find("id: QCTL-002").unwrap();
    let stayed = text.find("id: QCTL-001").unwrap();
    assert!(moved < stayed, "{text}");
    assert!(text.starts_with("schema_version: 4\nprefix: QCTL\nactive: null\n# the plan for the quarter\nqueue:\n"));
}

#[test]
fn setting_a_scalar_keeps_its_line() {
    let mut document = Document::new(LEDGER.to_string());
    document.set("active", Scalar::Text("QCTL-001".to_string())).expect("set");
    assert_eq!(document.into_source(), LEDGER.replace("active: null", "active: QCTL-001"));
    let mut document = Document::new(LEDGER.replace("active: null", "active: QCTL-001"));
    document.set("active", Scalar::Null).expect("set");
    assert_eq!(document.into_source(), LEDGER);
}

#[test]
fn blockers_are_rewritten_in_their_own_style() {
    let mut document = Document::new(LEDGER.to_string());
    document.rewrite_blockers("queue", "QCTL-002", &Vec::new()).expect("rewrite");
    let text = document.into_source();
    assert!(text.contains("  - id: QCTL-002\n    title: Second\n    blocked_by: []\n"), "{text}");
}

#[test]
fn a_row_key_reports_its_shape() {
    let document = Document::new(LEDGER.to_string());
    assert_eq!(document.row_key_shape("queue", 1, "blocked_by").expect("shape"), Some(KeyShape::Sequence));
    assert_eq!(document.row_key_shape("queue", 1, "title").expect("shape"), Some(KeyShape::Scalar));
    assert_eq!(document.row_key_shape("queue", 1, "notes").expect("shape"), None);
}

#[test]
fn a_new_row_lands_at_the_end_of_its_list() {
    let mut document = Document::new(LEDGER.to_string());
    let entries = vec![
        ("id".to_string(), FieldValue::Text("QCTL-003".to_string())),
        ("title".to_string(), FieldValue::Text("Third".to_string())),
        ("blocked_by".to_string(), FieldValue::List(vec!["QCTL-001".to_string()])),
    ];
    document.append("queue", &entries).expect("append");
    let text = document.into_source();
    assert_eq!(document_ids(&text), vec!["QCTL-001", "QCTL-002", "QCTL-003"]);
    assert!(text.ends_with("archive: []\nhorizon: []\n"), "{text}");
}

#[test]
fn reindenting_a_list_moves_every_row_line() {
    let mut document = Document::new(LEDGER.to_string());
    document.set_indent("queue", 4).expect("indent");
    let text = document.into_source();
    assert!(text.contains("queue:\n    - id: QCTL-001\n      title: First\n"), "{text}");
    assert_eq!(document_ids(&text), vec!["QCTL-001", "QCTL-002"]);
}

#[test]
fn reindenting_twice_changes_nothing_more() {
    let mut document = Document::new(LEDGER.to_string());
    document.set_indent("queue", 4).expect("indent");
    let once = document.into_source();
    let mut again = Document::new(once.clone());
    again.set_indent("queue", 4).expect("indent again");
    assert_eq!(again.into_source(), once);
}

#[test]
fn sections_follow_the_order_asked_for() {
    let mut document = Document::new(LEDGER.to_string());
    let order = vec!["horizon".to_string(), "archive".to_string(), "queue".to_string()];
    document.reorder_sections(&order).expect("reorder");
    let text = document.into_source();
    let h = text.find("horizon:").unwrap();
    let a = text.find("archive:").unwrap();
    let q = text.find("queue:").unwrap();
    assert!(h < a && a < q, "{text}");
}

#[test]
fn a_scalar_notes_becomes_a_list_of_notes() {
    let source = "queue:\n  - id: QCTL-001\n    notes: One line.\n";
    let mut document = Document::new(source.to_string());
    let notes = FieldValue::List(vec!["One line.".to_string(), "Two: with a colon.".to_string()]);
    document.replace_row_value("queue", 0, "notes", &notes).expect("replace");
    let text = document.into_source();
    let value: serde_yml::Value = serde_yml::from_str(&text).expect("reads");
    assert_eq!(value["queue"][0]["notes"][1].as_str(), Some("Two: with a colon."), "{text}");
}

fn document_ids(text: &str) -> Vec<String> {
    let value: serde_yml::Value = serde_yml::from_str(text).expect("reads");
    value["queue"]
        .as_sequence()
        .expect("queue")
        .iter()
        .map(|row| row["id"].as_str().expect("id").to_string())
        .collect()
}
