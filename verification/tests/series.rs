use stockdata::calendar::Date;
use stockdata::error::QueryError;
use stockdata::series::{Period, Stock};

fn date(year: u32, month: u32, day: u32) -> Date {
    Date { year, month, day }
}

fn bar(start: i64, end: i64, high: i64, low: i64, volume: u64) -> Period {
    Period { start, end, high, low, volume }
}

#[test]
fn new_series_is_empty() {
    let stock = Stock::new();
    assert_eq!(stock.get_day_data(date(2020, 1, 1)), None);
    assert!(stock.entries().is_empty());
}

#[test]
fn add_then_lookup() {
    let mut stock = Stock::new();
    let day = date(2020, 1, 2);
    let first = bar(1050, 1075, 1100, 1025, 1000);
    stock.add_data(day, first);
    assert_eq!(stock.get_day_data(day), Some(first));
    assert_eq!(stock.get_day_data(date(2020, 1, 3)), None);
    assert_eq!(stock.get_day_data(date(2020, 2, 1)), None);
    assert_eq!(stock.get_day_data(date(2021, 1, 2)), None);
}

#[test]
fn later_record_replaces_earlier() {
    let mut stock = Stock::new();
    let day = date(2020, 1, 2);
    let other = date(2020, 1, 3);
    let first = bar(1, 2, 3, 0, 10);
    let second = bar(5, 6, 7, 4, 20);
    let third = bar(-5, -6, -4, -7, 0);
    stock.add_data(day, first);
    stock.add_data(other, third);
    stock.add_data(day, second);
    assert_eq!(stock.get_day_data(day), Some(second));
    assert_eq!(stock.get_day_data(other), Some(third));
    assert_eq!(stock.entries().len(), 2);
}

#[test]
fn dates_are_kept_apart() {
    let mut stock = Stock::new();
    stock.add_data(date(1, 2, 3), bar(1, 1, 1, 1, 1));
    stock.add_data(date(3, 2, 1), bar(2, 2, 2, 2, 2));
    stock.add_data(date(0, 0, 0), bar(3, 3, 3, 3, 3));
    stock.add_data(date(u32::MAX, u32::MAX, u32::MAX), bar(4, 4, 4, 4, 4));
    stock.add_data(date(0, 0, 1), bar(5, 5, 5, 5, 5));
    stock.add_data(date(0, 1, 0), bar(6, 6, 6, 6, 6));
    stock.add_data(date(1, 0, 0), bar(7, 7, 7, 7, 7));
    assert_eq!(stock.get_day_data(date(1, 2, 3)), Some(bar(1, 1, 1, 1, 1)));
    assert_eq!(stock.get_day_data(date(3, 2, 1)), Some(bar(2, 2, 2, 2, 2)));
    assert_eq!(stock.get_day_data(date(0, 0, 0)), Some(bar(3, 3, 3, 3, 3)));
    assert_eq!(
        stock.get_day_data(date(u32::MAX, u32::MAX, u32::MAX)),
        Some(bar(4, 4, 4, 4, 4))
    );
    assert_eq!(stock.get_day_data(date(0, 0, 1)), Some(bar(5, 5, 5, 5, 5)));
    assert_eq!(stock.get_day_data(date(0, 1, 0)), Some(bar(6, 6, 6, 6, 6)));
    assert_eq!(stock.get_day_data(date(1, 0, 0)), Some(bar(7, 7, 7, 7, 7)));
    assert_eq!(stock.get_day_data(date(2, 1, 3)), None);
    assert_eq!(stock.entries().len(), 7);
}

#[test]
fn entries_list_every_record_once() {
    let mut stock = Stock::new();
    let records = [
        (date(2020, 1, 1), bar(1, 2, 3, 0, 10)),
        (date(2020, 1, 2), bar(2, 3, 4, 1, 20)),
        (date(2019, 12, 31), bar(3, 4, 5, 2, 30)),
    ];
    for (day, data) in records.iter() {
        stock.add_data(*day, *data);
    }
    stock.add_data(date(2020, 1, 1), bar(9, 9, 9, 9, 9));
    let mut list = stock.entries();
    list.sort_by_key(|record| record.0);
    assert_eq!(
        list,
        vec![
            (date(2019, 12, 31), bar(3, 4, 5, 2, 30)),
            (date(2020, 1, 1), bar(9, 9, 9, 9, 9)),
            (date(2020, 1, 2), bar(2, 3, 4, 1, 20)),
        ]
    );
}

fn sample() -> Stock {
    let mut stock = Stock::new();
    stock.add_data(date(2020, 1, 1), bar(90, 100, 110, 85, 200));
    stock.add_data(date(2020, 1, 3), bar(100, 105, 140, 99, 300));
    stock.add_data(date(2020, 1, 5), bar(105, 120, 130, 95, 500));
    stock.add_data(date(2019, 12, 31), bar(1, 1, 1000, 1, 7));
    stock.add_data(date(2020, 1, 6), bar(2, 2, 2000, -50, 9));
    stock
}

#[test]
fn range_aggregate() {
    let stock = sample();
    assert_eq!(
        stock.get_period_data(date(2020, 1, 1), date(2020, 1, 5)),
        Ok(Some(bar(90, 120, 140, 85, 1000)))
    );
}

#[test]
fn range_includes_both_ends() {
    let stock = sample();
    assert_eq!(
        stock.get_period_data(date(2019, 12, 31), date(2020, 1, 6)),
        Ok(Some(bar(1, 2, 2000, -50, 1016)))
    );
    assert_eq!(
        stock.get_period_data(date(2020, 1, 3), date(2020, 1, 5)),
        Ok(Some(bar(100, 120, 140, 95, 800)))
    );
    assert_eq!(
        stock.get_period_data(date(2019, 12, 31), date(2020, 1, 1)),
        Ok(Some(bar(1, 100, 1000, 1, 207)))
    );
}

#[test]
fn range_must_run_forward() {
    let stock = sample();
    assert_eq!(
        stock.get_period_data(date(2020, 1, 1), date(2020, 1, 1)),
        Err(QueryError::InvalidRange)
    );
    assert_eq!(
        stock.get_period_data(date(2020, 1, 5), date(2020, 1, 1)),
        Err(QueryError::InvalidRange)
    );
    assert_eq!(
        stock.get_period_data(date(2020, 2, 1), date(2020, 1, 31)),
        Err(QueryError::InvalidRange)
    );
    assert_eq!(
        stock.get_period_data(date(2021, 1, 1), date(2020, 12, 31)),
        Err(QueryError::InvalidRange)
    );
    assert_eq!(
        Stock::new().get_period_data(date(2020, 1, 1), date(2020, 1, 1)),
        Err(QueryError::InvalidRange)
    );
}

#[test]
fn range_without_records() {
    let stock = sample();
    assert_eq!(
        stock.get_period_data(date(2020, 2, 1), date(2020, 3, 1)),
        Err(QueryError::EmptyRangeResult)
    );
    assert_eq!(
        stock.get_period_data(date(2020, 1, 7), date(2030, 1, 1)),
        Err(QueryError::EmptyRangeResult)
    );
    assert_eq!(
        stock.get_period_data(date(0, 1, 1), date(2019, 12, 30)),
        Err(QueryError::EmptyRangeResult)
    );
    assert_eq!(
        Stock::new().get_period_data(date(2020, 1, 1), date(2020, 1, 5)),
        Err(QueryError::EmptyRangeResult)
    );
}

#[test]
fn range_without_record_at_an_end() {
    let stock = sample();
    assert_eq!(stock.get_period_data(date(2020, 1, 2), date(2020, 1, 5)), Ok(None));
    assert_eq!(stock.get_period_data(date(2020, 1, 1), date(2020, 1, 4)), Ok(None));
    assert_eq!(stock.get_period_data(date(2020, 1, 2), date(2020, 1, 4)), Ok(None));
    assert_eq!(stock.get_period_data(date(2019, 1, 1), date(2021, 1, 1)), Ok(None));
}

#[test]
fn range_volume_beyond_64_bits() {
    let mut stock = Stock::new();
    stock.add_data(date(2020, 1, 1), bar(1, 1, 1, 1, u64::MAX));
    stock.add_data(date(2020, 1, 2), bar(1, 1, 1, 1, 0));
    assert_eq!(
        stock.get_period_data(date(2020, 1, 1), date(2020, 1, 2)),
        Ok(Some(bar(1, 1, 1, 1, u64::MAX)))
    );
    stock.add_data(date(2020, 1, 2), bar(1, 1, 1, 1, 1));
    assert_eq!(
        stock.get_period_data(date(2020, 1, 1), date(2020, 1, 2)),
        Err(QueryError::VolumeOverflow)
    );
    assert_eq!(
        stock.get_period_data(date(2020, 1, 1), date(2020, 1, 3)),
        Ok(None)
    );
    assert_eq!(
        stock.get_period_data(date(2020, 1, 2), date(2020, 1, 3)),
        Ok(None)
    );
    stock.add_data(date(2020, 1, 3), bar(2, 3, 4, 0, 0));
    assert_eq!(
        stock.get_period_data(date(2020, 1, 1), date(2020, 1, 3)),
        Err(QueryError::VolumeOverflow)
    );
    assert_eq!(
        stock.get_period_data(date(2020, 1, 2), date(2020, 1, 3)),
        Ok(Some(bar(1, 3, 4, 0, 1)))
    );
}

#[test]
fn missing_end_comes_before_the_volume() {
    let mut stock = Stock::new();
    stock.add_data(date(2020, 1, 2), bar(1, 1, 1, 1, u64::MAX));
    stock.add_data(date(2020, 1, 3), bar(1, 1, 1, 1, 1));
    assert_eq!(stock.get_period_data(date(2020, 1, 1), date(2020, 1, 5)), Ok(None));
    assert_eq!(stock.get_period_data(date(2020, 1, 2), date(2020, 1, 5)), Ok(None));
    assert_eq!(stock.get_period_data(date(2020, 1, 1), date(2020, 1, 3)), Ok(None));
    assert_eq!(
        stock.get_period_data(date(2020, 1, 2), date(2020, 1, 3)),
        Err(QueryError::VolumeOverflow)
    );
}

#[test]
fn same_records_or_not() {
    let mut left = Stock::new();
    let mut right = Stock::new();
    assert!(left.same_records(&right));
    left.add_data(date(2020, 1, 2), bar(1, 2, 3, 0, 4));
    assert!(!left.same_records(&right));
    assert!(!right.same_records(&left));
    right.add_data(date(2020, 1, 3), bar(1, 2, 3, 0, 4));
    assert!(!left.same_records(&right));
    right.add_data(date(2020, 1, 2), bar(1, 2, 3, 0, 5));
    left.add_data(date(2020, 1, 3), bar(1, 2, 3, 0, 4));
    assert!(!left.same_records(&right));
    assert!(!right.same_records(&left));
    right.add_data(date(2020, 1, 2), bar(1, 2, 3, 0, 4));
    assert!(left.same_records(&right));
    assert!(right.same_records(&left));
    assert!(left.same_records(&left));
}

#[test]
fn range_with_negative_prices() {
    let mut stock = Stock::new();
    stock.add_data(date(2020, 1, 1), bar(-10, -20, -5, -30, 1));
    stock.add_data(date(2020, 1, 2), bar(-11, -21, -6, -31, 2));
    assert_eq!(
        stock.get_period_data(date(2020, 1, 1), date(2020, 1, 2)),
        Ok(Some(bar(-10, -21, -5, -31, 3)))
    );
    stock.add_data(date(2020, 1, 3), bar(i64::MIN, i64::MAX, i64::MAX, i64::MIN, 0));
    assert_eq!(
        stock.get_period_data(date(2020, 1, 1), date(2020, 1, 3)),
        Ok(Some(bar(-10, i64::MAX, i64::MAX, i64::MIN, 3)))
    );
}

#[test]
fn range_over_dates_that_are_no_days() {
    let mut stock = Stock::new();
    stock.add_data(date(2020, 1, 35), bar(1, 2, 3, 0, 4));
    stock.add_data(date(2020, 2, 1), bar(5, 6, 7, 4, 8));
    assert_eq!(
        stock.get_period_data(date(2020, 1, 35), date(2020, 2, 1)),
        Ok(Some(bar(1, 6, 7, 0, 12)))
    );
    assert_eq!(
        stock.get_period_data(date(2020, 1, 1), date(2020, 1, 31)),
        Err(QueryError::EmptyRangeResult)
    );
}
