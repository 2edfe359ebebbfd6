use genealogy_core::dates::{date_from_reading, parse_date, parse_optional_date, CalendarDate};

#[test]
fn a_date_is_read_as_year_month_and_day() {
    assert_eq!(parse_date("1987-03-09").unwrap(), CalendarDate { year: 1987, month: 3, day: 9 });
    assert_eq!(parse_date("2024-02-29").unwrap(), CalendarDate { year: 2024, month: 2, day: 29 });
    assert_eq!(parse_date("0800-12-25").unwrap(), CalendarDate { year: 800, month: 12, day: 25 });
}

#[test]
fn a_text_that_is_no_date_is_rejected_with_a_reason() {
    let error = parse_date("1987-13-09").unwrap_err();
    assert!(error.reason.starts_with("Date invalide: "));
    assert!(error.reason.len() > "Date invalide: ".len());
    assert!(parse_date("2023-02-29").is_err());
    assert!(parse_date("09/03/1987").is_err());
    assert!(parse_date("").is_err());
    assert!(parse_date("1987-03-09 and more").is_err());
}

#[test]
fn a_date_that_is_left_out_is_read_as_none() {
    assert_eq!(parse_optional_date(None).unwrap(), None);
    assert_eq!(
        parse_optional_date(Some("1900-01-01")).unwrap(),
        Some(CalendarDate { year: 1900, month: 1, day: 1 })
    );
    assert!(parse_optional_date(Some("soon")).is_err());
}

#[test]
fn a_reading_becomes_a_date_or_a_worded_error() {
    assert_eq!(
        date_from_reading(Ok((2000, 1, 2))).unwrap(),
        CalendarDate { year: 2000, month: 1, day: 2 }
    );
    let error = date_from_reading(Err("trop court".to_string())).unwrap_err();
    assert_eq!(error.reason, "Date invalide: trop court");
}
