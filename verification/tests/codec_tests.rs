use expense_tracker::codec::decode;
use expense_tracker::codec::encode;
use expense_tracker::ledger::Ledger;
use expense_tracker::render::render_table;

fn ts() -> String {
    "2024-01-02 03:04:05".to_string()
}

#[test]
fn empty_ledger_encodes_as_empty_array() {
    let l = Ledger::new();
    assert_eq!(encode(&l), "[]");
}

#[test]
fn empty_array_decodes_as_empty_ledger() {
    let l = decode("[]");
    assert_eq!(l.len(), 0);
}

#[test]
fn one_record_encodes_exactly() {
    let mut l = Ledger::new();
    l.add("Book".to_string(), 1299, "D".to_string());
    let expected = "[\n  {\n    \"item_name\": \"Book\",\n    \"price\": 12.99,\n    \"date\": \"D\"\n  }\n]";
    assert_eq!(encode(&l), expected);
}

#[test]
fn saving_then_loading_restores_the_ledger() {
    let mut l = Ledger::new();
    l.add("Coffee".to_string(), 350, ts());
    l.add("Book".to_string(), 1299, ts());
    l.add("Refund".to_string(), -250, ts());
    let text = encode(&l);
    let back = decode(&text);
    assert_eq!(back.len(), 3);
    for i in 0..3 {
        assert_eq!(back.get(i).item_name, l.get(i).item_name);
        assert_eq!(back.get(i).price_cents, l.get(i).price_cents);
        assert_eq!(back.get(i).date, l.get(i).date);
    }
}

#[test]
fn awkward_names_survive_the_round_trip() {
    let mut l = Ledger::new();
    l.add("a \"quoted\" name".to_string(), 100, ts());
    l.add("back\\slash".to_string(), 200, ts());
    l.add("tab\tand\nnewline".to_string(), 300, ts());
    l.add("caf\u{e9} au lait".to_string(), 400, ts());
    let text = encode(&l);
    let back = decode(&text);
    assert_eq!(back.len(), 4);
    for i in 0..4 {
        assert_eq!(back.get(i).item_name, l.get(i).item_name);
        assert_eq!(back.get(i).price_cents, l.get(i).price_cents);
        assert_eq!(back.get(i).date, l.get(i).date);
    }
}

#[test]
fn save_then_load_is_a_no_op() {
    let mut l = Ledger::new();
    l.add("Coffee".to_string(), 350, ts());
    let once = decode(&encode(&l));
    let twice = decode(&encode(&once));
    assert_eq!(once.len(), 1);
    assert_eq!(twice.len(), 1);
    assert_eq!(once.get(0).item_name, twice.get(0).item_name);
    assert_eq!(once.get(0).price_cents, twice.get(0).price_cents);
    assert_eq!(once.get(0).date, twice.get(0).date);
}

#[test]
fn malformed_text_decodes_as_empty() {
    assert_eq!(decode("").len(), 0);
    assert_eq!(decode("garbage").len(), 0);
    assert_eq!(decode("[").len(), 0);
    assert_eq!(decode("[\n]").len(), 0);
    assert_eq!(decode("{}").len(), 0);
    assert_eq!(decode("[{]").len(), 0);
    assert_eq!(decode("[]trailing").len(), 0);
}

#[test]
fn truncated_text_decodes_as_empty() {
    let mut l = Ledger::new();
    l.add("Book".to_string(), 1299, ts());
    let text = encode(&l);
    let cut = &text[..text.len() - 2];
    assert_eq!(decode(cut).len(), 0);
}

#[test]
fn restart_scenario_shows_the_saved_row() {
    let mut l = Ledger::new();
    l.add("Book".to_string(), 1299, ts());
    let saved = encode(&l);
    let restored = decode(&saved);
    let table = render_table(&restored);
    let expected = "Item            Price      Date                \n----------------------------------------------------\nBook            12.99      2024-01-02 03:04:05 \n";
    assert_eq!(table, expected);
}

#[test]
fn encoded_text_is_valid_json() {
    let mut l = Ledger::new();
    l.add("Caf\u{e9} \"au\" lait".to_string(), 350, ts());
    l.add("Book".to_string(), 1299, ts());
    let text = encode(&l);
    let v: serde_json::Value = serde_json::from_str(&text).unwrap();
    let arr = v.as_array().unwrap();
    assert_eq!(arr.len(), 2);
    assert_eq!(arr[0]["item_name"].as_str().unwrap(), "Caf\u{e9} \"au\" lait");
    assert_eq!(arr[0]["price"].as_f64().unwrap(), 3.50);
    assert_eq!(arr[0]["date"].as_str().unwrap(), "2024-01-02 03:04:05");
    assert_eq!(arr[1]["item_name"].as_str().unwrap(), "Book");
    assert_eq!(arr[1]["price"].as_f64().unwrap(), 12.99);
}
