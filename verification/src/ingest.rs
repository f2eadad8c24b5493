//! Rows from comma-separated text. The text is taken apart by the `csv`
//! crate; what is made of its records is decided here.

use crate::dataset::{rows_view, texts_view, Record};
use vstd::prelude::*;

verus! {

/// The header row of the comma-separated text `bytes`, as `csv` reads it with
/// its default settings: the fields of the first record, or `None` where
/// `csv` does not hand that record out as text.
pub uninterp spec fn csv_header_row(bytes: Seq<u8>) -> Option<Seq<Seq<char>>>;

/// The records that follow the header row of the comma-separated text
/// `bytes`, as `csv` reads them with its default settings: for every record
/// its fields, or `None` where `csv` reports an error in its place.
pub uninterp spec fn csv_data_rows(bytes: Seq<u8>) -> Seq<Option<Seq<Seq<char>>>>;

/// A header row as its texts.
pub open spec fn header_view(header: Option<Vec<String>>) -> Option<Seq<Seq<char>>> {
    match header {
        Some(fields) => Some(texts_view(fields@)),
        None => None,
    }
}

/// Records as their texts.
pub open spec fn table_view(records: Seq<Option<Vec<String>>>) -> Seq<Option<Seq<Seq<char>>>> {
    Seq::new(records.len(), |i: int| header_view(records[i]))
}

/// Calls `csv::Reader::headers` on a reader over `bytes` that
/// `csv::ReaderBuilder` makes with headers switched on and all else as it
/// comes. The result is the header row under the name `csv_header_row`; an
/// error of `csv` becomes `None`.
#[verifier::external_body]
fn read_header_row(bytes: &[u8]) -> (header: Option<Vec<String>>)
    ensures
        header_view(header) == csv_header_row(bytes@),
{
    let mut reader = csv::ReaderBuilder::new().has_headers(true).from_reader(bytes);
    reader.headers().ok().map(|row| row.iter().map(|field| field.to_string()).collect())
}

/// Calls `csv::Reader::records` on a reader over `bytes` that
/// `csv::ReaderBuilder` makes with headers switched on and all else as it
/// comes, and walks the iterator to its end. The result is the sequence of
/// records under the name `csv_data_rows`, an error of `csv` in the place of
/// a record as `None`. Such a reader refuses a record whose number of fields
/// differs from that of the first record it read, which is the header row:
/// so every record handed out has as many fields as the header row.
#[verifier::external_body]
fn read_data_rows(bytes: &[u8]) -> (records: Vec<Option<Vec<String>>>)
    ensures
        table_view(records@) == csv_data_rows(bytes@),
        forall|i: int|
            0 <= i < records@.len() && (#[trigger] records@[i]) is Some && csv_header_row(
                bytes@,
            ) is Some ==> records@[i]->0@.len() == csv_header_row(bytes@)->0.len(),
{
    let mut reader = csv::ReaderBuilder::new().has_headers(true).from_reader(bytes);
    let texts = |row: csv::StringRecord| row.iter().map(|field| field.to_string()).collect();
    reader.records().map(|row| row.ok().map(texts)).collect()
}

/// The row that the first fields of `header` make with `fields` as their
/// values, field by field; of two fields with one name the later counts.
pub open spec fn row_of(header: Seq<Seq<char>>, fields: Seq<Seq<char>>) -> Map<
    Seq<char>,
    Seq<char>,
>
    decreases fields.len(),
{
    if fields.len() == 0 {
        Map::empty()
    } else {
        row_of(header, fields.drop_last()).insert(header[fields.len() - 1], fields.last())
    }
}

/// The rows that `records` make under `header`: one for every record that
/// was read, in their order.
pub open spec fn rows_of(header: Seq<Seq<char>>, records: Seq<Option<Seq<Seq<char>>>>) -> Seq<
    Map<Seq<char>, Seq<char>>,
>
    decreases records.len(),
{
    if records.len() == 0 {
        Seq::empty()
    } else {
        let before = rows_of(header, records.drop_last());
        match records.last() {
            Some(fields) => before.push(row_of(header, fields)),
            None => before,
        }
    }
}

/// The row that names the values `fields` by the first fields of `header`.
pub fn record_from_fields(header: &Vec<String>, fields: &Vec<String>) -> (row: Record)
    requires
        fields@.len() <= header@.len(),
    ensures
        row@ == row_of(texts_view(header@), texts_view(fields@)),
{
    let mut row = Record::new();
    let mut k: usize = 0;
    while k < fields.len()
        invariant
            k <= fields@.len(),
            fields@.len() <= header@.len(),
            row@ == row_of(texts_view(header@), texts_view(fields@).take(k as int)),
        decreases fields@.len() - k,
    {
        proof {
            let longer = texts_view(fields@).take(k + 1);
            assert(longer.drop_last() =~= texts_view(fields@).take(k as int));
        }
        row.insert(header[k].clone(), fields[k].clone());
        k += 1;
    }
    assert(texts_view(fields@).take(k as int) =~= texts_view(fields@));
    row
}

/// The rows of a table: one for every record of `records` that was read,
/// its values named by `header`.
pub fn dataset_from_table(header: &Vec<String>, records: &Vec<Option<Vec<String>>>) -> (dataset:
    Vec<Record>)
    requires
        forall|i: int|
            0 <= i < records@.len() && (#[trigger] records@[i]) is Some ==> records@[i]->0@.len()
                <= header@.len(),
    ensures
        rows_view(dataset@) == rows_of(texts_view(header@), table_view(records@)),
{
    let mut dataset: Vec<Record> = Vec::new();
    let mut i: usize = 0;
    while i < records.len()
        invariant
            i <= records@.len(),
            forall|j: int|
                0 <= j < records@.len() && (#[trigger] records@[j]) is Some
                    ==> records@[j]->0@.len() <= header@.len(),
            rows_view(dataset@) == rows_of(
                texts_view(header@),
                table_view(records@).take(i as int),
            ),
        decreases records@.len() - i,
    {
        assert(table_view(records@).take(i + 1).drop_last() =~= table_view(records@).take(
            i as int,
        ));
        match &records[i] {
            Some(fields) => {
                let row = record_from_fields(header, fields);
                dataset.push(row);
            },
            None => {},
        }
        i += 1;
    }
    assert(table_view(records@).take(i as int) =~= table_view(records@));
    dataset
}

/// Reads comma-separated text into rows. The first record names the fields;
/// every record after it that can be read makes a row, and one that cannot
/// is passed over. `None` where the header row itself cannot be read.
pub fn parse_dataset(bytes: &[u8]) -> (dataset: Option<Vec<Record>>)
    ensures
        dataset is Some <==> csv_header_row(bytes@) is Some,
        dataset matches Some(rows) ==> rows_view(rows@) == rows_of(
            csv_header_row(bytes@)->0,
            csv_data_rows(bytes@),
        ),
{
    match read_header_row(bytes) {
        Some(header) => {
            let records = read_data_rows(bytes);
            Some(dataset_from_table(&header, &records))
        },
        None => None,
    }
}

} // verus!
