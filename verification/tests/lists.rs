use qctl::cli::EditPosition;
use qctl::edit::lists::{apply, permute, remove};
use qctl::edit::position::index;
use qctl::ledger::corpus::missing_ranges;
use qctl::ledger::next_id;
use qctl::schema::{Ledger, QueuedTask, Style};

fn strings(items: &[&str]) -> Vec<String> {
    items.iter().map(|s| s.to_string()).collect()
}

#[test]
fn removal_takes_an_index_or_the_exact_text() {
    let mut list = strings(&["a", "b", "c"]);
    remove(&mut list, "2").expect("by index");
    assert_eq!(list, strings(&["a", "c"]));
    remove(&mut list, "c").expect("by text");
    assert_eq!(list, strings(&["a"]));
    assert_eq!(remove(&mut list, "zzz"), Err("zzz is not in the list".to_string()));
    let mut numbers = strings(&["7"]);
    remove(&mut numbers, "7").expect("an index out of range is read as text");
    assert!(numbers.is_empty());
}

#[test]
fn a_permutation_names_every_note_once() {
    let list = strings(&["a", "b", "c"]);
    assert_eq!(permute(&list, "3,1,2"), Ok(strings(&["c", "a", "b"])));
    assert_eq!(permute(&list, " 2, 3 ,1"), Ok(strings(&["b", "c", "a"])));
    assert_eq!(permute(&list, "1,2"), Err("--reorder-notes must name every note once".to_string()));
    assert_eq!(permute(&list, "1,1,2"), Err("--reorder-notes repeats 1".to_string()));
    assert_eq!(permute(&list, "1,2,9"), Err("--reorder-notes index 9 is out of range".to_string()));
    assert_eq!(permute(&list, "a,b,c"), Err("--reorder-notes needs a permutation such as 3,1,2".to_string()));
}

#[test]
fn additions_must_be_new_and_not_empty() {
    let current = strings(&["a", "b"]);
    assert_eq!(apply(&current, &strings(&["c"]), &strings(&["1"]), None), Ok(strings(&["b", "c"])));
    assert_eq!(apply(&current, &strings(&["a"]), &Vec::new(), None), Err("duplicate a".to_string()));
    assert_eq!(apply(&current, &strings(&[""]), &Vec::new(), None), Err("list item is empty".to_string()));
    assert_eq!(apply(&current, &Vec::new(), &Vec::new(), Some("2,1")), Ok(strings(&["b", "a"])));
}

#[test]
fn a_position_is_counted_among_the_rows_that_stay() {
    let ids = strings(&["A-001", "A-002", "A-003"]);
    assert_eq!(index(&ids, 2, Some(&EditPosition::Front)), Ok(0));
    assert_eq!(index(&ids, 0, Some(&EditPosition::Back)), Ok(2));
    assert_eq!(index(&ids, 2, Some(&EditPosition::After("A-001".to_string()))), Ok(1));
    assert_eq!(index(&ids, 0, Some(&EditPosition::Before("A-003".to_string()))), Ok(1));
    assert_eq!(index(&ids, 1, None), Ok(1));
    assert!(index(&ids, 0, Some(&EditPosition::After("A-404".to_string()))).is_err());
}

#[test]
fn missing_ranges_start_at_one() {
    assert_eq!(missing_ranges(&[3]), [(1, 2)]);
    assert!(missing_ranges(&[1, 2, 3]).is_empty());
    assert!(missing_ranges(&[]).is_empty());
}

#[test]
fn the_id_space_ends_at_six_digits() {
    let row = |id: &str| QueuedTask {
        id: id.to_string(),
        title: "t".to_string(),
        scope: "s".to_string(),
        outcome: "o".to_string(),
        blocked_by: Vec::new(),
        acceptance: strings(&["a"]),
        patch: None,
        plan: None,
        links: Vec::new(),
        notes: Vec::new(),
    };
    let full = Ledger {
        schema_version: 4,
        prefix: "QCTL".to_string(),
        style: Style::default_style(),
        active: None,
        queue: vec![row("QCTL-999999")],
        archive: Vec::new(),
        horizon: Vec::new(),
    };
    assert_eq!(next_id(&full), Err("id space exhausted".to_string()));
    let mut almost = full;
    almost.queue = vec![row("QCTL-999998")];
    assert_eq!(next_id(&almost), Ok("QCTL-999999".to_string()));
}
