use std::cmp::Ordering;
use stockdata::calendar::{days_in_month, is_leap_year, to_iso_str, Date};
use stockdata::error::{FieldKind, MonthOutOfRange, ParseError};

fn date(year: u32, month: u32, day: u32) -> Date {
    Date { year, month, day }
}

#[test]
fn date_cmp() {
    let d1 = Date { year: 2015, month: 1, day: 1 };
    let d2 = Date { year: 2014, month: 1, day: 1 };
    assert_eq!(d1.cmp(&d2), Ordering::Greater);

    let d1 = Date { year: 2015, month: 1, day: 1 };
    let d2 = Date { year: 2014, month: 12, day: 1 };
    assert_eq!(d1.cmp(&d2), Ordering::Greater);

    let d1 = Date { year: 2015, month: 1, day: 1 };
    let d2 = Date { year: 2014, month: 4, day: 30 };
    assert_eq!(d1.cmp(&d2), Ordering::Greater);

    let d1 = Date { year: 2014, month: 1, day: 1 };
    let d2 = Date { year: 2014, month: 1, day: 12 };
    assert_eq!(d1.cmp(&d2), Ordering::Less);

    let d1 = Date { year: 2015, month: 1, day: 1 };
    let d2 = Date { year: 2015, month: 1, day: 1 };
    assert_eq!(d1.cmp(&d2), Ordering::Equal);

    let d1 = Date { year: 2014, month: 5, day: 1 };
    let d2 = Date { year: 2014, month: 3, day: 12 };
    assert_eq!(d1.cmp(&d2), Ordering::Greater);
}

#[test]
fn date_partial_order_agrees_with_total_order() {
    let days = [
        date(2014, 1, 1),
        date(2014, 1, 12),
        date(2014, 3, 12),
        date(2014, 4, 30),
        date(2014, 5, 1),
        date(2014, 12, 1),
        date(2015, 1, 1),
    ];
    for a in days.iter() {
        for b in days.iter() {
            assert_eq!(a.partial_cmp(b), Some(a.cmp(b)));
            assert_eq!(a < b, a.cmp(b) == Ordering::Less);
            assert_eq!(a <= b, a.cmp(b) != Ordering::Greater);
            assert_eq!(a > b, a.cmp(b) == Ordering::Greater);
        }
    }
    assert!(date(2014, 12, 31) < date(2015, 1, 1));
    assert!(date(2015, 1, 31) < date(2015, 2, 1));
    assert!(!(date(2015, 2, 1) < date(2015, 2, 1)));
}

#[test]
fn leap_years() {
    assert!(is_leap_year(2000));
    assert!(!is_leap_year(1900));
    assert!(is_leap_year(2004));
    assert!(!is_leap_year(2001));
    assert!(is_leap_year(0));
    assert!(!is_leap_year(2100));
    assert!(is_leap_year(2400));
}

#[test]
fn month_lengths() {
    assert_eq!(days_in_month(2004, 2), Ok(29));
    assert_eq!(days_in_month(2003, 2), Ok(28));
    assert_eq!(days_in_month(1900, 2), Ok(28));
    assert_eq!(days_in_month(2000, 2), Ok(29));
    let lengths = [31, 28, 31, 30, 31, 30, 31, 31, 30, 31, 30, 31];
    for month in 1..=12u32 {
        assert_eq!(days_in_month(2021, month), Ok(lengths[(month - 1) as usize]));
    }
}

#[test]
fn month_out_of_range() {
    assert_eq!(days_in_month(2021, 0), Err(MonthOutOfRange { month: 0 }));
    assert_eq!(days_in_month(2021, 13), Err(MonthOutOfRange { month: 13 }));
    assert_eq!(days_in_month(2020, u32::MAX), Err(MonthOutOfRange { month: u32::MAX }));
}

#[test]
fn valid_dates() {
    assert!(date(2020, 2, 29).is_valid());
    assert!(!date(2021, 2, 29).is_valid());
    assert!(!date(2021, 0, 1).is_valid());
    assert!(!date(2021, 13, 1).is_valid());
    assert!(!date(2021, 1, 0).is_valid());
    assert!(!date(2021, 1, 35).is_valid());
    assert!(date(0, 1, 1).is_valid());
    assert!(date(u32::MAX, 12, 31).is_valid());
}

#[test]
fn next_day_steps() {
    assert_eq!(date(2020, 2, 28).next_day(), date(2020, 2, 29));
    assert_eq!(date(2021, 2, 28).next_day(), date(2021, 3, 1));
    assert_eq!(date(2020, 2, 29).next_day(), date(2020, 3, 1));
    assert_eq!(date(2021, 12, 31).next_day(), date(2022, 1, 1));
    assert_eq!(date(2021, 4, 30).next_day(), date(2021, 5, 1));
    assert_eq!(date(2021, 4, 29).next_day(), date(2021, 4, 30));
    assert_eq!(date(u32::MAX, 12, 30).next_day(), date(u32::MAX, 12, 31));
}

#[test]
fn prior_day_steps() {
    assert_eq!(date(2021, 1, 1).prior_day(), date(2020, 12, 31));
    assert_eq!(date(2020, 3, 1).prior_day(), date(2020, 2, 29));
    assert_eq!(date(2021, 3, 1).prior_day(), date(2021, 2, 28));
    assert_eq!(date(2021, 5, 1).prior_day(), date(2021, 4, 30));
    assert_eq!(date(2021, 5, 2).prior_day(), date(2021, 5, 1));
    assert_eq!(date(0, 1, 2).prior_day(), date(0, 1, 1));
}

#[test]
fn day_steps_cancel() {
    let mut day = date(2019, 12, 25);
    for _ in 0..800 {
        let next = day.next_day();
        assert!(next.is_valid());
        assert!(day < next);
        assert_eq!(next.prior_day(), day);
        day = next;
    }
    assert_eq!(day, date(2022, 3, 4));
}

#[test]
fn two_digit_text() {
    assert_eq!(to_iso_str(0), "00");
    assert_eq!(to_iso_str(3), "03");
    assert_eq!(to_iso_str(9), "09");
    assert_eq!(to_iso_str(10), "10");
    assert_eq!(to_iso_str(12), "12");
    assert_eq!(to_iso_str(123), "123");
    assert_eq!(to_iso_str(u32::MAX), "4294967295");
}

#[test]
fn date_text() {
    assert_eq!(date(2020, 1, 2).to_string(), "2020-01-02");
    assert_eq!(date(2020, 12, 31).to_string(), "2020-12-31");
    assert_eq!(date(5, 3, 4).to_string(), "5-03-04");
    assert_eq!(date(0, 1, 1).to_string(), "0-01-01");
    assert_eq!(date(12345, 10, 9).to_string(), "12345-10-09");
    assert_eq!(date(2020, 1, 35).to_string(), "2020-01-35");
    assert_eq!(date(u32::MAX, 100, 0).to_string(), "4294967295-100-00");
}

#[test]
fn date_from_text() {
    assert_eq!(Date::from_str("2020-01-02"), Ok(date(2020, 1, 2)));
    assert_eq!(Date::from_str("2020-1-2"), Ok(date(2020, 1, 2)));
    assert_eq!(Date::from_str("5-03-04"), Ok(date(5, 3, 4)));
    assert_eq!(Date::from_str("0002020-0001-0000000000000002"), Ok(date(2020, 1, 2)));
    assert_eq!(Date::from_str("+2020-+1-+2"), Ok(date(2020, 1, 2)));
    assert_eq!(Date::from_str("4294967295-4294967295-4294967295"), Ok(date(u32::MAX, u32::MAX, u32::MAX)));
}

#[test]
fn date_from_text_keeps_out_of_range_fields() {
    assert_eq!(Date::from_str("2020-01-35"), Ok(date(2020, 1, 35)));
    assert_eq!(Date::from_str("2020-13-01"), Ok(date(2020, 13, 1)));
    assert_eq!(Date::from_str("2020-00-00"), Ok(date(2020, 0, 0)));
    assert!(!Date::from_str("2020-01-35").unwrap().is_valid());
}

#[test]
fn date_from_text_reads_three_fields_only() {
    assert_eq!(Date::from_str("2020-01-02-03"), Ok(date(2020, 1, 2)));
    assert_eq!(Date::from_str("2020-01-02-"), Ok(date(2020, 1, 2)));
    assert_eq!(Date::from_str("2020-01-02-x"), Ok(date(2020, 1, 2)));
}

fn not_a_date(text: &str) {
    assert_eq!(
        Date::from_str(text),
        Err(ParseError { field: text.to_string(), kind: FieldKind::Date })
    );
}

#[test]
fn date_from_text_rejects() {
    not_a_date("");
    not_a_date("2020");
    not_a_date("2020-01");
    not_a_date("2020-01-");
    not_a_date("-01-02");
    not_a_date("2020--02");
    not_a_date("2020-xx-02");
    not_a_date("2020-01-0x");
    not_a_date(" 2020-01-02");
    not_a_date("2020-01-02 ");
    not_a_date("2020/01/02");
    not_a_date("2020-01-+");
    not_a_date("2020-01-++2");
    not_a_date("4294967296-01-02");
    not_a_date("2020-4294967296-02");
    not_a_date("2020-01-99999999999999999999999999");
    not_a_date("2020-0١-02");
}

#[test]
fn date_parses_through_the_standard_trait() {
    assert_eq!("2020-01-02".parse::<Date>(), Ok(date(2020, 1, 2)));
    assert!("2020-01".parse::<Date>().is_err());
}

#[test]
fn date_text_round_trip() {
    let days = [
        date(0, 1, 1),
        date(7, 7, 7),
        date(1999, 12, 31),
        date(2020, 2, 29),
        date(2020, 10, 5),
        date(u32::MAX, 12, 31),
        date(2020, 0, 0),
        date(1, 123, 4567),
        date(u32::MAX, u32::MAX, u32::MAX),
    ];
    for day in days.iter() {
        assert_eq!(Date::from_str(&day.to_string()), Ok(*day));
    }
    let mut day = date(2023, 1, 1);
    for _ in 0..400 {
        assert_eq!(Date::from_str(&day.to_string()), Ok(day));
        day = day.next_day();
    }
}
