use stockdata::calendar::Date;
use stockdata::document::{document_entries, load_document};
use stockdata::error::{FieldKind, ParseError};
use stockdata::series::{Period, Stock};

fn date(year: u32, month: u32, day: u32) -> Date {
    Date { year, month, day }
}

fn bar(start: i64, end: i64, high: i64, low: i64, volume: u64) -> Period {
    Period { start, end, high, low, volume }
}

#[test]
fn document_into_series() {
    let entries = vec![
        ("2020-01-02".to_string(), bar(1, 2, 3, 0, 10)),
        ("2020-01-03".to_string(), bar(2, 3, 4, 1, 20)),
        ("2020-1-2".to_string(), bar(5, 6, 7, 4, 30)),
    ];
    let stock = load_document(&entries).unwrap();
    assert_eq!(stock.get_day_data(date(2020, 1, 2)), Some(bar(5, 6, 7, 4, 30)));
    assert_eq!(stock.get_day_data(date(2020, 1, 3)), Some(bar(2, 3, 4, 1, 20)));
    assert_eq!(stock.entries().len(), 2);
    assert!(load_document(&Vec::new()).unwrap().entries().is_empty());
}

#[test]
fn document_with_a_name_that_is_no_date() {
    let entries = vec![
        ("2020-01-02".to_string(), bar(1, 2, 3, 0, 10)),
        ("yesterday".to_string(), bar(2, 3, 4, 1, 20)),
        ("".to_string(), bar(5, 6, 7, 4, 30)),
    ];
    assert_eq!(
        load_document(&entries).err(),
        Some(ParseError { field: "yesterday".to_string(), kind: FieldKind::Date })
    );
}

#[test]
fn series_into_document() {
    let mut stock = Stock::new();
    assert!(document_entries(&stock).is_empty());
    stock.add_data(date(2020, 1, 3), bar(2, 3, 4, 1, 20));
    stock.add_data(date(2019, 12, 31), bar(1, 2, 3, 0, 10));
    stock.add_data(date(12345, 10, 9), bar(5, 6, 7, 4, 30));
    stock.add_data(date(2020, 1, 3), bar(8, 9, 10, 7, 40));
    let mut entries = document_entries(&stock);
    entries.sort_by(|a, b| a.0.cmp(&b.0));
    assert_eq!(
        entries,
        vec![
            ("12345-10-09".to_string(), bar(5, 6, 7, 4, 30)),
            ("2019-12-31".to_string(), bar(1, 2, 3, 0, 10)),
            ("2020-01-03".to_string(), bar(8, 9, 10, 7, 40)),
        ]
    );
}

#[test]
fn series_survives_the_way_through_a_document() {
    let mut stock = Stock::new();
    stock.add_data(date(2020, 1, 3), bar(2, 3, 4, 1, 20));
    stock.add_data(date(2019, 12, 31), bar(1, 2, 3, 0, 10));
    stock.add_data(date(7, 13, 35), bar(5, 6, 7, 4, 30));
    stock.add_data(date(u32::MAX, u32::MAX, u32::MAX), bar(i64::MIN, i64::MAX, 0, -1, u64::MAX));
    let back = load_document(&document_entries(&stock)).unwrap();
    let mut before = stock.entries();
    let mut after = back.entries();
    before.sort_by_key(|record| record.0);
    after.sort_by_key(|record| record.0);
    assert_eq!(before.len(), 4);
    assert_eq!(before, after);
}
