use ndjson_router::text::{join_strings, place_name, same_name, Placement};
use ndjson_router::{ParseError, Record};

fn pairs(items: &[(&str, &str)]) -> Vec<(String, String)> {
    items.iter().map(|(name, value)| (name.to_string(), value.to_string())).collect()
}

#[test]
fn record_orders_fields_by_name() {
    let record = Record::from(pairs(&[("y", "2"), ("type", "A"), ("x", "1")]));
    assert_eq!(record.len(), 3);
    assert_eq!(record.to_string(), "type;x;y\nA;1;2\n");
    assert_eq!(record.to_headless_string(), "A;1;2\n");
}

#[test]
fn record_default_delimiter_is_semicolon() {
    let record = Record::from(pairs(&[("a", "1"), ("b", "2")]));
    assert_eq!(record.delimiter(), ";");
    assert_eq!(record.to_headless_string(), "1;2\n");
}

#[test]
fn record_delimiter_can_be_replaced() {
    let mut record = Record::from(pairs(&[("b", "2"), ("a", "1")]));
    record.set_delimiter(",".to_string());
    assert_eq!(record.delimiter(), ",");
    assert_eq!(record.to_string(), "a,b\n1,2\n");
    record.set_delimiter(" | ".to_string());
    assert_eq!(record.to_headless_string(), "1 | 2\n");
    assert_eq!(record.len(), 2);
}

#[test]
fn record_later_pair_replaces_earlier_one() {
    let record = Record::from(pairs(&[("a", "first"), ("b", "x"), ("a", "second")]));
    assert_eq!(record.len(), 2);
    assert_eq!(record.get("a"), Some(&"second".to_string()));
    assert_eq!(record.to_string(), "a;b\nsecond;x\n");
}

#[test]
fn record_without_fields_prints_empty_lines() {
    let record = Record::from(Vec::new());
    assert_eq!(record.len(), 0);
    assert_eq!(record.to_headless_string(), "\n");
    assert_eq!(record.to_string(), "\n\n");
}

#[test]
fn record_with_one_field_has_no_delimiter() {
    let record = Record::from(pairs(&[("only", "v")]));
    assert_eq!(record.to_string(), "only\nv\n");
}

#[test]
fn record_get_finds_fields() {
    let record = Record::from(pairs(&[("type", "A"), ("x", "1")]));
    assert_eq!(record.get("x"), Some(&"1".to_string()));
    assert_eq!(record.get("type"), Some(&"A".to_string()));
    assert_eq!(record.get("missing"), None);
    assert_eq!(record.get(""), None);
    assert_eq!(record.get("X"), None);
}

#[test]
fn record_get_type_gives_category() {
    let record = Record::from(pairs(&[("x", "1"), ("type", "occupancy")]));
    assert_eq!(record.get_type(), Ok("occupancy".to_string()));
}

#[test]
fn record_get_type_fails_without_category_field() {
    let record = Record::from(pairs(&[("x", "1"), ("querytype", "occupancy")]));
    assert_eq!(record.get_type(), Err(ParseError::MissingField));
    let empty = Record::from(Vec::new());
    assert_eq!(empty.get_type(), Err(ParseError::MissingField));
}

#[test]
fn record_values_are_not_escaped() {
    let record = Record::from(pairs(&[("a", "x;y"), ("b", "z")]));
    assert_eq!(record.to_headless_string(), "x;y;z\n");
}

#[test]
fn record_names_are_ordered_by_bytes() {
    let record = Record::from(pairs(&[("b", "4"), ("a", "3"), ("B", "2"), ("é", "5"), ("", "1")]));
    assert_eq!(record.to_string(), ";B;a;b;é\n1;2;3;4;5\n");
    let longer = Record::from(pairs(&[("ab", "2"), ("a", "1"), ("abc", "3"), ("b", "4")]));
    assert_eq!(longer.to_string(), "a;ab;abc;b\n1;2;3;4\n");
}

#[test]
fn record_order_matches_string_order() {
    let names = ["zeta", "Alpha", "alpha", "beta", "10", "9", "é", "e", "z", "日本", "~"];
    let fields: Vec<(String, String)> =
        names.iter().map(|n| (n.to_string(), n.to_string())).collect();
    let record = Record::from(fields);
    let mut sorted: Vec<String> = names.iter().map(|n| n.to_string()).collect();
    sorted.sort();
    assert_eq!(record.to_headless_string(), format!("{}\n", sorted.join(";")));
}

#[test]
fn place_name_orders_names() {
    assert_eq!(place_name("a", "b"), Placement::Before);
    assert_eq!(place_name("b", "a"), Placement::After);
    assert_eq!(place_name("a", "a"), Placement::Same);
    assert_eq!(place_name("", ""), Placement::Same);
    assert_eq!(place_name("", "a"), Placement::Before);
    assert_eq!(place_name("a", ""), Placement::After);
    assert_eq!(place_name("ab", "abc"), Placement::Before);
    assert_eq!(place_name("abd", "abc"), Placement::After);
    assert_eq!(place_name("Z", "a"), Placement::Before);
    assert_eq!(place_name("z", "é"), Placement::Before);
}

#[test]
fn join_strings_puts_separator_between_parts() {
    let parts = vec!["a".to_string(), "b".to_string(), "c".to_string()];
    assert_eq!(join_strings(&parts, ","), "a,b,c");
    assert_eq!(join_strings(&parts, ""), "abc");
    assert_eq!(join_strings(&parts, "--"), "a--b--c");
    assert_eq!(join_strings(&Vec::new(), ","), "");
    assert_eq!(join_strings(&vec!["one".to_string()], ","), "one");
    assert_eq!(join_strings(&vec!["".to_string(), "".to_string()], ","), ",");
}

#[test]
fn record_clone_keeps_fields_and_delimiter() {
    let mut record = Record::from(pairs(&[("type", "A"), ("x", "1")]));
    record.set_delimiter("\t".to_string());
    let copy = record.clone();
    assert_eq!(copy.to_string(), "type\tx\nA\t1\n");
    assert_eq!(copy.to_string(), record.to_string());
    assert_eq!(copy.delimiter(), record.delimiter());
    assert_eq!(copy.len(), 2);
}

#[test]
fn same_name_compares_whole_names() {
    assert!(same_name("", ""));
    assert!(same_name("type", "type"));
    assert!(!same_name("type", "Type"));
    assert!(!same_name("type", "typ"));
    assert!(!same_name("typ", "type"));
    assert!(same_name("é", "é"));
    assert!(!same_name("é", "e"));
}
