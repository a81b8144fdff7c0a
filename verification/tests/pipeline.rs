use ndjson_router::pipeline::{BATCH_LINES, OUTPUT_FOLDER};
use ndjson_router::{
    entry_action, flatten_json, keep_records, CleanResult, Entry, EntryAction, LineBatch,
    ParseError, Record,
};

fn folder(name: &str) -> Entry {
    Entry::Folder { name: name.to_string() }
}

fn file(extension: Option<&str>) -> Entry {
    Entry::File { extension: extension.map(|e| e.to_string()) }
}

#[test]
fn entry_folder_opens_output() {
    assert_eq!(entry_action(&folder("2019")), EntryAction::OpenOutput);
    assert_eq!(entry_action(&folder("")), EntryAction::OpenOutput);
    assert_eq!(entry_action(&folder("Output")), EntryAction::OpenOutput);
    assert_eq!(entry_action(&folder("outputs")), EntryAction::OpenOutput);
}

#[test]
fn entry_output_folder_is_passed_by() {
    assert_eq!(OUTPUT_FOLDER, "output");
    assert_eq!(entry_action(&folder("output")), EntryAction::Skip);
}

#[test]
fn entry_file_is_told_by_extension() {
    assert_eq!(entry_action(&file(Some("log"))), EntryAction::ProcessLog);
    assert_eq!(entry_action(&file(Some("gz"))), EntryAction::ProcessArchive);
    assert_eq!(entry_action(&file(Some("csv"))), EntryAction::Skip);
    assert_eq!(entry_action(&file(Some("LOG"))), EntryAction::Skip);
    assert_eq!(entry_action(&file(Some(""))), EntryAction::Skip);
    assert_eq!(entry_action(&file(None)), EntryAction::Skip);
}

#[test]
fn entry_of_other_kind_is_passed_by() {
    assert_eq!(entry_action(&Entry::Other), EntryAction::Skip);
}

#[test]
fn batch_fills_at_five_hundred_lines() {
    assert_eq!(BATCH_LINES, 500);
    let mut waiting = LineBatch::new();
    for i in 0..499 {
        assert_eq!(waiting.push(i.to_string()), None);
    }
    let batch = waiting.push("499".to_string()).unwrap();
    assert_eq!(batch.len(), 500);
    for (i, line) in batch.iter().enumerate() {
        assert_eq!(*line, i.to_string());
    }
    assert_eq!(waiting.finish(), None);
}

#[test]
fn batch_hands_out_rest_once() {
    let mut waiting = LineBatch::new();
    assert_eq!(waiting.finish(), None);
    assert_eq!(waiting.push("a".to_string()), None);
    assert_eq!(waiting.push("b".to_string()), None);
    assert_eq!(waiting.finish(), Some(vec!["a".to_string(), "b".to_string()]));
    assert_eq!(waiting.finish(), None);
    assert_eq!(waiting.push("c".to_string()), None);
    assert_eq!(waiting.finish(), Some(vec!["c".to_string()]));
}

#[test]
fn batches_keep_every_line_in_order() {
    let mut waiting = LineBatch::new();
    let mut seen: Vec<String> = Vec::new();
    let mut batches = 0;
    for i in 0..1234 {
        if let Some(batch) = waiting.push(format!("line {}", i)) {
            assert_eq!(batch.len(), 500);
            seen.extend(batch);
            batches += 1;
        }
    }
    if let Some(rest) = waiting.finish() {
        assert_eq!(rest.len(), 234);
        seen.extend(rest);
    }
    assert_eq!(batches, 2);
    assert_eq!(seen.len(), 1234);
    for (i, line) in seen.iter().enumerate() {
        assert_eq!(*line, format!("line {}", i));
    }
}

fn one_field(name: &str, value: &str) -> Record {
    Record::from(vec![(name.to_string(), value.to_string())])
}

fn texts_of(records: &[Record]) -> Vec<String> {
    records.iter().map(|record| record.to_string()).collect()
}

#[test]
fn keep_records_drops_failures_of_single_lines() {
    let results: Vec<CleanResult<Record>> = vec![
        Err(ParseError::InvalidInput),
        Ok(one_field("type", "A")),
        Err(ParseError::UpstreamError),
        Err(ParseError::FilteredOut),
        Ok(one_field("type", "B")),
        Err(ParseError::MissingField),
    ];
    let records = keep_records(results).unwrap();
    assert_eq!(texts_of(&records), vec!["type\nA\n".to_string(), "type\nB\n".to_string()]);
}

#[test]
fn keep_records_of_nothing_is_nothing() {
    assert_eq!(keep_records(Vec::new()).unwrap().len(), 0);
    let dropped: Vec<CleanResult<Record>> = vec![Err(ParseError::FilteredOut)];
    assert_eq!(keep_records(dropped).unwrap().len(), 0);
}

#[test]
fn keep_records_hands_on_first_fatal_failure() {
    let results: Vec<CleanResult<Record>> = vec![
        Ok(one_field("type", "A")),
        Err(ParseError::FilteredOut),
        Err(ParseError::IoWrite),
        Ok(one_field("type", "B")),
        Err(ParseError::SinkCreation),
    ];
    assert_eq!(keep_records(results).unwrap_err(), ParseError::IoWrite);
    let corrupted: Vec<CleanResult<Record>> = vec![Err(ParseError::StateCorrupted)];
    assert_eq!(keep_records(corrupted).unwrap_err(), ParseError::StateCorrupted);
    let created: Vec<CleanResult<Record>> =
        vec![Err(ParseError::SinkCreation), Err(ParseError::IoWrite)];
    assert_eq!(keep_records(created).unwrap_err(), ParseError::SinkCreation);
}

#[test]
fn keep_records_keeps_what_flattening_gives() {
    let lines = [r#"{"type":"A","x":"1"}"#, "oops", r#"{"type":"B","x":"2"}"#, "{}"];
    let results: Vec<CleanResult<Record>> =
        lines.iter().map(|line| flatten_json(line, &Vec::new())).collect();
    let records = keep_records(results).unwrap();
    assert_eq!(
        texts_of(&records),
        vec!["type;x\nA;1\n".to_string(), "type;x\nB;2\n".to_string()]
    );
}
