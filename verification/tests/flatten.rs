use ndjson_router::utils::{category_allowed, digit_runs_fit, flatten_members, MAX_DIGIT_RUN};
use ndjson_router::{flatten_json, ParseError, Record};

fn names(items: &[&str]) -> Vec<String> {
    items.iter().map(|name| name.to_string()).collect()
}

fn pairs(items: &[(&str, &str)]) -> Vec<(String, String)> {
    items.iter().map(|(name, value)| (name.to_string(), value.to_string())).collect()
}

fn concat_parts(parts: &[&str]) -> String {
    parts.iter().map(|part| part.to_string()).collect()
}

fn error_of(result: Result<Record, ParseError>) -> ParseError {
    match result {
        Ok(record) => panic!("expected an error, got {:?}", record),
        Err(e) => e,
    }
}

#[test]
fn flatten_object_with_empty_filter_gives_record() {
    let mut record = flatten_json(r#"{"type":"A","x":"1","y":"2"}"#, &Vec::new()).unwrap();
    assert_eq!(record.get("x"), Some(&"1".to_string()));
    assert_eq!(record.get("y"), Some(&"2".to_string()));
    assert_eq!(record.get("type"), Some(&"A".to_string()));
    assert_eq!(record.len(), 3);
    record.set_delimiter(",".to_string());
    assert_eq!(record.to_string(), "type,x,y\nA,1,2\n");
    assert_eq!(record.to_headless_string(), "A,1,2\n");
}

#[test]
fn flatten_keeps_every_top_level_field() {
    let record =
        flatten_json(r#"{"z":"last","type":"A","error_code":"0","a":"first"}"#, &Vec::new())
            .unwrap();
    assert_eq!(record.len(), 4);
    assert_eq!(record.to_string(), "a;error_code;type;z\nfirst;0;A;last\n");
}

#[test]
fn flatten_record_has_default_delimiter() {
    let record = flatten_json(r#"{"type":"A","x":"1"}"#, &Vec::new()).unwrap();
    assert_eq!(record.delimiter(), ";");
    assert_eq!(record.to_string(), "type;x\nA;1\n");
}

#[test]
fn flatten_error_field_is_upstream_error_whatever_the_filter() {
    let line = r#"{"type":"A","error":"timeout"}"#;
    assert_eq!(error_of(flatten_json(line, &Vec::new())), ParseError::UpstreamError);
    assert_eq!(error_of(flatten_json(line, &names(&["a"]))), ParseError::UpstreamError);
    assert_eq!(error_of(flatten_json(line, &names(&["other"]))), ParseError::UpstreamError);
    assert_eq!(error_of(flatten_json(line, &names(&["a", "b", "c"]))), ParseError::UpstreamError);
}

#[test]
fn flatten_error_field_without_category_is_upstream_error() {
    assert_eq!(
        error_of(flatten_json(r#"{"error":null}"#, &Vec::new())),
        ParseError::UpstreamError
    );
}

#[test]
fn flatten_category_outside_filter_is_filtered_out() {
    let line = r#"{"type":"occupancy","x":"5"}"#;
    assert_eq!(error_of(flatten_json(line, &names(&["other"]))), ParseError::FilteredOut);
}

#[test]
fn flatten_category_in_filter_passes() {
    let line = r#"{"type":"occupancy","x":"5"}"#;
    let record = flatten_json(line, &names(&["other", "occupancy"])).unwrap();
    assert_eq!(record.to_string(), "type;x\noccupancy;5\n");
}

#[test]
fn flatten_missing_category_is_filtered_out() {
    assert_eq!(error_of(flatten_json(r#"{"x":"5"}"#, &Vec::new())), ParseError::FilteredOut);
    assert_eq!(
        error_of(flatten_json(r#"{"querytype":"a"}"#, &names(&["a"]))),
        ParseError::FilteredOut
    );
    assert_eq!(error_of(flatten_json("{}", &Vec::new())), ParseError::FilteredOut);
}

#[test]
fn flatten_lowers_category_before_filtering() {
    let record = flatten_json(r#"{"type":"Occupancy"}"#, &names(&["occupancy"])).unwrap();
    assert_eq!(record.get_type(), Ok("Occupancy".to_string()));
    let upper = flatten_json(r#"{"type":"CONNECTIONS"}"#, &names(&["connections"])).unwrap();
    assert_eq!(upper.to_headless_string(), "CONNECTIONS\n");
}

#[test]
fn flatten_takes_filter_names_as_given() {
    assert_eq!(
        error_of(flatten_json(r#"{"type":"occupancy"}"#, &names(&["Occupancy"]))),
        ParseError::FilteredOut
    );
}

#[test]
fn flatten_rejects_text_that_is_not_json() {
    assert_eq!(error_of(flatten_json("not json", &Vec::new())), ParseError::InvalidInput);
    assert_eq!(error_of(flatten_json("", &Vec::new())), ParseError::InvalidInput);
    assert_eq!(error_of(flatten_json("{\"type\":\"A\"", &Vec::new())), ParseError::InvalidInput);
    assert_eq!(
        error_of(flatten_json("{\"type\":\"A\"} trailing", &Vec::new())),
        ParseError::InvalidInput
    );
    assert_eq!(error_of(flatten_json("{'type':'A'}", &Vec::new())), ParseError::InvalidInput);
}

#[test]
fn flatten_rejects_json_that_is_not_an_object() {
    assert_eq!(error_of(flatten_json("[1,2,3]", &Vec::new())), ParseError::InvalidInput);
    assert_eq!(error_of(flatten_json("42", &Vec::new())), ParseError::InvalidInput);
    assert_eq!(error_of(flatten_json("\"type\"", &Vec::new())), ParseError::InvalidInput);
    assert_eq!(error_of(flatten_json("null", &Vec::new())), ParseError::InvalidInput);
    assert_eq!(error_of(flatten_json("true", &Vec::new())), ParseError::InvalidInput);
    assert_eq!(
        error_of(flatten_json(r#"[{"type":"A"}]"#, &Vec::new())),
        ParseError::InvalidInput
    );
}

#[test]
fn flatten_turns_values_into_text() {
    let line = concat_parts(&[
        r#"{"type":"A","n":5,"neg":-2.50,"t":true,"f":false,"nothing":null,"#,
        r#""s":"say \"hi\"","arr":[1,"two",null],"obj":{"k":"v","n":[1]}}"#,
    ]);
    let line = line.as_str();
    let record = flatten_json(line, &Vec::new()).unwrap();
    assert_eq!(record.get("n"), Some(&"5".to_string()));
    assert_eq!(record.get("neg"), Some(&"-2.50".to_string()));
    assert_eq!(record.get("t"), Some(&"true".to_string()));
    assert_eq!(record.get("f"), Some(&"false".to_string()));
    assert_eq!(record.get("nothing"), Some(&"null".to_string()));
    assert_eq!(record.get("s"), Some(&"say \"hi\"".to_string()));
    assert_eq!(record.get("arr"), Some(&"[1,\"two\",null]".to_string()));
    assert_eq!(record.get("obj"), Some(&"{\"k\":\"v\",\"n\":[1]}".to_string()));
}

#[test]
fn flatten_does_not_flatten_nested_objects() {
    let record = flatten_json(r#"{"type":"A","user":{"agent":"x"}}"#, &Vec::new()).unwrap();
    assert_eq!(record.len(), 2);
    assert_eq!(record.get("agent"), None);
    assert_eq!(record.get("user"), Some(&"{\"agent\":\"x\"}".to_string()));
}

#[test]
fn flatten_category_that_is_not_a_string() {
    let record = flatten_json(r#"{"type":7}"#, &names(&["7"])).unwrap();
    assert_eq!(record.get_type(), Ok("7".to_string()));
    assert_eq!(
        error_of(flatten_json(r#"{"type":7}"#, &names(&["8"]))),
        ParseError::FilteredOut
    );
}

#[test]
fn flatten_repeated_member_keeps_last_value() {
    let record = flatten_json(r#"{"type":"A","x":"1","x":"2"}"#, &Vec::new()).unwrap();
    assert_eq!(record.len(), 2);
    assert_eq!(record.get("x"), Some(&"2".to_string()));
}

#[test]
fn flatten_accepts_surrounding_whitespace() {
    let record = flatten_json("  {\"type\" : \"A\" }\t", &Vec::new()).unwrap();
    assert_eq!(record.to_string(), "type\nA\n");
}

#[test]
fn flatten_same_input_gives_same_result() {
    let line = r#"{"type":"B","k":[1,2],"a":"z"}"#;
    let filter = names(&["b"]);
    let first = flatten_json(line, &filter).unwrap();
    let second = flatten_json(line, &filter).unwrap();
    assert_eq!(first.to_string(), second.to_string());
    assert_eq!(first.delimiter(), second.delimiter());
    let reordered = flatten_json(line, &names(&["b", "b", "other"])).unwrap();
    let other_order = flatten_json(line, &names(&["other", "b"])).unwrap();
    assert_eq!(reordered.to_string(), other_order.to_string());
    let bad = "{";
    assert_eq!(error_of(flatten_json(bad, &filter)), error_of(flatten_json(bad, &filter)));
}

#[test]
fn flatten_rejects_overlong_digit_run() {
    let digits = "0".repeat(MAX_DIGIT_RUN + 1);
    let fraction = format!("{{\"type\":\"A\",\"n\":0.{}}}", digits);
    assert_eq!(error_of(flatten_json(&fraction, &Vec::new())), ParseError::InvalidInput);
    let text = format!("{{\"type\":\"A\",\"n\":\"{}\"}}", digits);
    assert_eq!(error_of(flatten_json(&text, &Vec::new())), ParseError::InvalidInput);
}

#[test]
fn flatten_accepts_longest_digit_run() {
    let digits = "0".repeat(MAX_DIGIT_RUN);
    let fraction = format!("{{\"type\":\"A\",\"n\":0.{}}}", digits);
    let record = flatten_json(&fraction, &Vec::new()).unwrap();
    assert_eq!(record.get("n"), Some(&"0".to_string()));
    let text = format!("{{\"type\":\"A\",\"n\":\"{}\"}}", digits);
    let kept = flatten_json(&text, &Vec::new()).unwrap();
    assert_eq!(kept.get("n"), Some(&digits));
}

#[test]
fn flatten_accepts_long_line_with_short_digit_runs() {
    let value = "a1".repeat(MAX_DIGIT_RUN);
    let line = format!("{{\"type\":\"A\",\"v\":\"{}\"}}", value);
    let record = flatten_json(&line, &Vec::new()).unwrap();
    assert_eq!(record.get("v"), Some(&value));
}

#[test]
fn digit_runs_fit_measures_runs() {
    assert!(digit_runs_fit(""));
    assert!(digit_runs_fit("no digits"));
    assert!(digit_runs_fit("1234567890"));
    assert!(digit_runs_fit(&"7".repeat(MAX_DIGIT_RUN)));
    assert!(!digit_runs_fit(&"7".repeat(MAX_DIGIT_RUN + 1)));
    let split = format!("{}x{}", "7".repeat(MAX_DIGIT_RUN), "8".repeat(MAX_DIGIT_RUN));
    assert!(digit_runs_fit(&split));
    let late = format!("{}{}", "x".repeat(MAX_DIGIT_RUN), "9".repeat(MAX_DIGIT_RUN + 1));
    assert!(!digit_runs_fit(&late));
    let early = format!("{}{}", "9".repeat(MAX_DIGIT_RUN + 1), "x".repeat(10));
    assert!(!digit_runs_fit(&early));
    assert_eq!(MAX_DIGIT_RUN, 32768);
}

#[test]
fn category_allowed_by_empty_filter() {
    assert!(category_allowed("anything", &Vec::new()));
    assert!(category_allowed("", &Vec::new()));
}

#[test]
fn category_allowed_by_listed_name_only() {
    let filter = names(&["a", "b"]);
    assert!(category_allowed("a", &filter));
    assert!(category_allowed("b", &filter));
    assert!(!category_allowed("c", &filter));
    assert!(!category_allowed("A", &filter));
    assert!(!category_allowed("", &filter));
    assert!(!category_allowed("ab", &filter));
}

#[test]
fn flatten_members_selects_by_fields() {
    let kept = flatten_members(pairs(&[("x", "1"), ("type", "A")]), &Vec::new()).unwrap();
    assert_eq!(kept.to_string(), "type;x\nA;1\n");
    assert_eq!(
        error_of(flatten_members(pairs(&[("type", "A"), ("error", "e")]), &Vec::new())),
        ParseError::UpstreamError
    );
    assert_eq!(
        error_of(flatten_members(pairs(&[("x", "1")]), &Vec::new())),
        ParseError::FilteredOut
    );
    assert_eq!(
        error_of(flatten_members(pairs(&[("type", "A")]), &names(&["b"]))),
        ParseError::FilteredOut
    );
    assert_eq!(error_of(flatten_members(Vec::new(), &Vec::new())), ParseError::FilteredOut);
    let lowered = flatten_members(pairs(&[("type", "ÀB")]), &names(&["àb"])).unwrap();
    assert_eq!(lowered.get_type(), Ok("ÀB".to_string()));
}

#[test]
fn parse_error_from_json_error_is_invalid_input() {
    let rejected = json::parse("{").unwrap_err();
    assert_eq!(ParseError::from(rejected), ParseError::InvalidInput);
    let unexpected = json::parse("}").unwrap_err();
    assert_eq!(ParseError::from(unexpected), ParseError::InvalidInput);
}

#[test]
fn parse_error_fatal_kinds() {
    assert!(!ParseError::InvalidInput.is_fatal());
    assert!(!ParseError::UpstreamError.is_fatal());
    assert!(!ParseError::FilteredOut.is_fatal());
    assert!(!ParseError::MissingField.is_fatal());
    assert!(ParseError::SinkCreation.is_fatal());
    assert!(ParseError::IoWrite.is_fatal());
    assert!(ParseError::StateCorrupted.is_fatal());
}

#[test]
fn flatten_order_of_members_does_not_matter() {
    let one = flatten_json(r#"{"type":"A","x":"1","y":[2,3]}"#, &Vec::new()).unwrap();
    let other = flatten_json(r#"{"y":[2,3],"x":"1","type":"A"}"#, &Vec::new()).unwrap();
    assert_eq!(one.to_string(), other.to_string());
    assert_eq!(one.to_string(), "type;x;y\nA;1;[2,3]\n");
}
