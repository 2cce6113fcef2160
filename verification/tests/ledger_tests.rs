use expense_tracker::ledger::Ledger;
use expense_tracker::session::Command;
use expense_tracker::session::parse_command;

fn ts() -> String {
    "2024-01-02 03:04:05".to_string()
}

#[test]
fn empty_ledger_totals_zero() {
    let l = Ledger::new();
    assert_eq!(l.len(), 0);
    assert_eq!(l.total(), 0);
}

#[test]
fn add_appends_one_record() {
    let mut l = Ledger::new();
    l.add("Coffee".to_string(), 350, ts());
    assert_eq!(l.len(), 1);
    l.add("Book".to_string(), 1299, ts());
    assert_eq!(l.len(), 2);
    assert_eq!(l.get(0).item_name, "Coffee");
    assert_eq!(l.get(0).price_cents, 350);
    assert_eq!(l.get(1).item_name, "Book");
}

#[test]
fn add_accepts_negative_prices() {
    let mut l = Ledger::new();
    l.add("Refund".to_string(), -250, ts());
    assert_eq!(l.len(), 1);
    assert_eq!(l.total(), -250);
}

#[test]
fn coffee_scenario() {
    let mut l = Ledger::new();
    l.add("Coffee".to_string(), 350, ts());
    l.add("Coffee".to_string(), 350, ts());
    assert_eq!(l.total(), 700);
    let removed = l.delete(&"Coffee".to_string());
    assert!(removed);
    assert_eq!(l.len(), 0);
    assert_eq!(l.total(), 0);
}

#[test]
fn delete_removes_every_match_and_nothing_else() {
    let mut l = Ledger::new();
    l.add("A".to_string(), 100, ts());
    l.add("B".to_string(), 200, ts());
    l.add("A".to_string(), 300, ts());
    let removed = l.delete(&"A".to_string());
    assert!(removed);
    assert_eq!(l.len(), 1);
    assert_eq!(l.get(0).item_name, "B");
    assert_eq!(l.get(0).price_cents, 200);
}

#[test]
fn delete_of_absent_name_changes_nothing() {
    let mut l = Ledger::new();
    l.add("A".to_string(), 100, ts());
    let removed = l.delete(&"missing".to_string());
    assert!(!removed);
    assert_eq!(l.len(), 1);
    assert_eq!(l.get(0).item_name, "A");
}

#[test]
fn delete_matches_names_exactly() {
    let mut l = Ledger::new();
    l.add("Tea".to_string(), 100, ts());
    let removed = l.delete(&"tea".to_string());
    assert!(!removed);
    assert_eq!(l.len(), 1);
}

#[test]
fn total_sums_in_order() {
    let mut l = Ledger::new();
    l.add("A".to_string(), 150, ts());
    l.add("B".to_string(), -50, ts());
    l.add("C".to_string(), 1, ts());
    assert_eq!(l.total(), 101);
}

#[test]
fn commands_are_matched_exactly() {
    assert_eq!(parse_command("add"), Command::Add);
    assert_eq!(parse_command("ls"), Command::Ls);
    assert_eq!(parse_command("delete"), Command::Delete);
    assert_eq!(parse_command("total"), Command::Total);
    assert_eq!(parse_command("save"), Command::Save);
    assert_eq!(parse_command("load"), Command::Load);
    assert_eq!(parse_command("clear"), Command::Clear);
    assert_eq!(parse_command("exit"), Command::Exit);
    assert_eq!(parse_command("Add"), Command::Unknown);
    assert_eq!(parse_command("add "), Command::Unknown);
    assert_eq!(parse_command(""), Command::Unknown);
    assert_eq!(parse_command("quit"), Command::Unknown);
}
