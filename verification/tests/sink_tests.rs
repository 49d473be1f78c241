use farm_yield::decimal::Decimal;
use farm_yield::model::Row;
use farm_yield::sink::RecordSink;

const HEADER: &str = "farm_id,date,token_deposit,usd_value,usd_reward\n";

fn row(id: &str, deposit: &str, usd: &str, reward: &str) -> Row {
    Row {
        farm_id: id.to_string(),
        date: "2021-05-01T12:00:00+00:00".to_string(),
        token_deposit: Decimal::parse(deposit).expect("a decimal"),
        usd_value: Decimal::parse(usd).expect("a decimal"),
        usd_reward: Decimal::parse(reward).expect("a decimal"),
    }
}

fn text(bytes: Vec<u8>) -> String {
    String::from_utf8(bytes).expect("text")
}

#[test]
fn new_store_gets_the_header_when_it_is_opened() {
    let (sink, opening) = RecordSink::open(false);
    assert_eq!(text(opening.bytes), HEADER);
    assert!(opening.failures.is_empty());
    assert!(!sink.needs_header());
    let batch = sink.append(&vec![row("f1", "100.0", "200.00", "5.0")]);
    assert!(batch.failures.is_empty());
    assert_eq!(text(batch.bytes), "f1,2021-05-01T12:00:00+00:00,100.0,200.00,5.0\n");
}

#[test]
fn existing_store_gets_no_header() {
    let (sink, opening) = RecordSink::open(true);
    assert!(opening.bytes.is_empty());
    assert!(opening.failures.is_empty());
    assert!(!sink.needs_header());
    let batch = sink.append(&vec![row("f1", "1", "2", "3"), row("f2", "4", "5", "6")]);
    assert_eq!(
        text(batch.bytes),
        "f1,2021-05-01T12:00:00+00:00,1,2,3\nf2,2021-05-01T12:00:00+00:00,4,5,6\n"
    );
}

#[test]
fn header_is_written_once_per_store() {
    let mut store = String::new();
    let (first_run, opening) = RecordSink::open(false);
    store.push_str(&text(opening.bytes));
    store.push_str(&text(first_run.append(&vec![row("a", "1", "1", "1")]).bytes));
    store.push_str(&text(first_run.append(&vec![row("b", "2", "2", "2")]).bytes));
    let after_first_run = store.clone();
    let (second_run, opening) = RecordSink::open(true);
    store.push_str(&text(opening.bytes));
    store.push_str(&text(second_run.append(&vec![row("c", "3", "3", "3")]).bytes));
    assert_eq!(store.matches("farm_id").count(), 1);
    assert!(store.starts_with(HEADER));
    assert!(store.starts_with(&after_first_run));
    assert_eq!(store.lines().count(), 4);
}

#[test]
fn header_is_written_once_even_if_the_first_run_appends_nothing() {
    let mut store = String::new();
    let (first_run, opening) = RecordSink::open(false);
    store.push_str(&text(opening.bytes));
    store.push_str(&text(first_run.append(&vec![]).bytes));
    assert_eq!(store, HEADER);
    let (second_run, opening) = RecordSink::open(true);
    store.push_str(&text(opening.bytes));
    store.push_str(&text(second_run.append(&vec![row("c", "3", "3", "3")]).bytes));
    assert_eq!(store, format!("{}c,2021-05-01T12:00:00+00:00,3,3,3\n", HEADER));
}

#[test]
fn empty_batch_is_empty() {
    let (sink, _) = RecordSink::open(false);
    let batch = sink.append(&vec![]);
    assert!(batch.bytes.is_empty());
    assert!(batch.failures.is_empty());
}

#[test]
fn batches_add_up_to_one_append() {
    let rows = vec![row("a", "1", "1", "1"), row("b", "2", "2", "2"), row("c", "3", "3", "3")];
    let (sink, _) = RecordSink::open(false);
    let at_once = sink.append(&rows).bytes;
    let mut in_parts = sink.append(&rows[..1].to_vec()).bytes;
    in_parts.extend(sink.append(&rows[1..].to_vec()).bytes);
    assert_eq!(at_once, in_parts);
}

#[test]
fn fields_are_quoted_as_csv_asks() {
    let (sink, _) = RecordSink::open(true);
    let batch = sink.append(&vec![row("a,b", "1", "2", "3"), row("say \"hi\"", "1", "2", "3")]);
    assert_eq!(
        text(batch.bytes),
        "\"a,b\",2021-05-01T12:00:00+00:00,1,2,3\n\"say \"\"hi\"\"\",2021-05-01T12:00:00+00:00,1,2,3\n"
    );
}

#[test]
fn columns_keep_their_order() {
    let (sink, _) = RecordSink::open(true);
    let batch = sink.append(&vec![row("id", "1.5", "-2.25", "0.0")]);
    let line = text(batch.bytes);
    let fields: Vec<&str> = line.trim_end().split(',').collect();
    assert_eq!(fields, vec!["id", "2021-05-01T12:00:00+00:00", "1.5", "-2.25", "0.0"]);
}
