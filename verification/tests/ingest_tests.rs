use graph_centrality::dataset::Record;
use graph_centrality::graph::build_graph;
use graph_centrality::ingest::{dataset_from_table, parse_dataset, record_from_fields};

fn texts(items: &[&str]) -> Vec<String> {
    items.iter().map(|item| item.to_string()).collect()
}

fn pairs(record: &Record) -> Vec<(String, String)> {
    record.fields().clone()
}

#[test]
fn text_is_read_into_rows() {
    let rows = parse_dataset(b"Brand,Model\nToyota,Corolla\nHonda,Civic\n").unwrap();
    assert_eq!(rows.len(), 2);
    assert_eq!(rows[0].get("Brand"), Some(&"Toyota".to_string()));
    assert_eq!(rows[0].get("Model"), Some(&"Corolla".to_string()));
    assert_eq!(rows[1].get("Brand"), Some(&"Honda".to_string()));
    assert_eq!(rows[1].get("Model"), Some(&"Civic".to_string()));
    assert_eq!(rows[0].len(), 2);
}

#[test]
fn quoted_fields_are_unquoted() {
    let rows = parse_dataset(b"Brand,Note\n\"Land Rover\",\"a, b\"\n").unwrap();
    assert_eq!(rows.len(), 1);
    assert_eq!(rows[0].get("Brand"), Some(&"Land Rover".to_string()));
    assert_eq!(rows[0].get("Note"), Some(&"a, b".to_string()));
}

#[test]
fn record_of_another_length_is_passed_over() {
    let rows = parse_dataset(b"Brand,Model\nToyota\nHonda,Civic\nFord,Focus,2012\n").unwrap();
    assert_eq!(rows.len(), 1);
    assert_eq!(rows[0].get("Brand"), Some(&"Honda".to_string()));
}

#[test]
fn record_that_is_not_text_is_passed_over() {
    let rows = parse_dataset(b"Brand,Model\n\xff\xfe,Civic\nFord,Focus\n").unwrap();
    assert_eq!(rows.len(), 1);
    assert_eq!(rows[0].get("Brand"), Some(&"Ford".to_string()));
}

#[test]
fn header_that_is_not_text_gives_nothing() {
    assert!(parse_dataset(b"Br\xffand,Model\nToyota,Corolla\n").is_none());
}

#[test]
fn header_alone_gives_no_rows() {
    assert_eq!(parse_dataset(b"Brand,Model\n").unwrap().len(), 0);
    assert_eq!(parse_dataset(b"").unwrap().len(), 0);
}

#[test]
fn later_column_of_the_same_name_counts() {
    let rows = parse_dataset(b"Brand,Brand\nToyota,Honda\n").unwrap();
    assert_eq!(rows.len(), 1);
    assert_eq!(rows[0].len(), 1);
    assert_eq!(rows[0].get("Brand"), Some(&"Honda".to_string()));
}

#[test]
fn rows_of_text_make_a_graph() {
    let rows = parse_dataset(b"Brand,Year\nToyota,2010\nHonda,2011\nToyota,2012\n").unwrap();
    let graph = build_graph(&rows);
    assert_eq!(graph.nodes(), &texts(&["Toyota", "Honda"]));
    assert_eq!(graph.edges(), &vec![(0, 1)]);
}

#[test]
fn fields_are_named_by_the_header() {
    let record = record_from_fields(&texts(&["a", "b", "c"]), &texts(&["1", "2"]));
    assert_eq!(
        pairs(&record),
        vec![("a".to_string(), "1".to_string()), ("b".to_string(), "2".to_string())]
    );
    let empty = record_from_fields(&texts(&["a"]), &texts(&[]));
    assert_eq!(empty.len(), 0);
}

#[test]
fn table_keeps_the_records_that_were_read() {
    let header = texts(&["Brand", "Model"]);
    let records = vec![Some(texts(&["Toyota", "Corolla"])), None, Some(texts(&["Honda", "Civic"]))];
    let rows = dataset_from_table(&header, &records);
    assert_eq!(rows.len(), 2);
    assert_eq!(rows[0].get("Model"), Some(&"Corolla".to_string()));
    assert_eq!(rows[1].get("Brand"), Some(&"Honda".to_string()));
}
