use calendar::date::{AnyDate, Fixed, Recurring};
use calendar::error::{Error, Field};
use std::cmp::Ordering;

#[test]
fn recurring_parse_ok() {
    assert_eq!(Recurring::try_from("1,1").unwrap(), Recurring::new(1, 1));
}

#[test]
fn recurring_parse_with_spaces() {
    assert_eq!(Recurring::try_from("   2  , 2    ").unwrap(), Recurring::new(2, 2));
}

#[test]
fn recurring_parse_missing_day() {
    assert!(Recurring::try_from(",3").is_err());
}

#[test]
fn recurring_parse_missing_month() {
    assert!(Recurring::try_from("4,").is_err());
}

#[test]
fn recurring_parse_invalid() {
    assert!(Recurring::try_from("-5,5").is_err());
    assert!(Recurring::try_from("6,-6").is_err());
}

#[test]
fn recurring_parse_extra_data() {
    assert!(Recurring::try_from("7,7,7").is_err());
}

#[test]
fn recurring_compare_less() {
    let base = Recurring::new(1, 1);
    let different_month = Recurring::new(1, 2);
    let different_day = Recurring::new(2, 1);
    assert_eq!(base.cmp(&different_month), Ordering::Less);
    assert_eq!(base.cmp(&different_day), Ordering::Less);
}

#[test]
fn recurring_compare_equal() {
    let base = Recurring::new(1, 1);
    assert_eq!(base.cmp(&base), Ordering::Equal)
}

#[test]
fn recurring_compare_more() {
    let base = Recurring::new(1, 1);
    let different_month = Recurring::new(1, 2);
    let different_day = Recurring::new(2, 1);
    assert_eq!(different_month.cmp(&base), Ordering::Greater);
    assert_eq!(different_day.cmp(&base), Ordering::Greater);
}

#[test]
fn recurring_compare_today() {
    let today = Recurring::now();
    let today = Fixed { year: Fixed::now().year, date: today };
    let epoch = Fixed::new(1, 1, 1970);
    assert!(epoch < today);
}

#[test]
fn fixed_parse_ok() {
    assert_eq!(Fixed::try_from("01,01,01").unwrap(), Fixed::new(1, 1, 1));
}

#[test]
fn fixed_parse_with_spaces() {
    assert_eq!(Fixed::try_from("   2  , 2    ,   2   ").unwrap(), Fixed::new(2, 2, 2));
}

#[test]
fn fixed_parse_missing_day() {
    assert!(Fixed::try_from(",3,3").is_err());
}

#[test]
fn fixed_parse_missing_month() {
    assert!(Fixed::try_from("4,,4").is_err());
}

#[test]
fn fixed_parse_missing_year() {
    assert!(Fixed::try_from("5,5").is_err());
}

#[test]
fn fixed_parse_invalid() {
    assert!(Fixed::try_from("-6,-6,-6").is_err());
}

#[test]
fn fixed_parse_extra_data() {
    assert!(Fixed::try_from("7,7,7,7").is_err());
}

#[test]
fn fixed_compare_less() {
    let base = Fixed::new(1, 1, 1);
    let different_year = Fixed::new(1, 1, 2);
    let different_month = Fixed::new(1, 2, 1);
    let different_day = Fixed::new(2, 1, 1);
    assert_eq!(base.cmp(&different_year), Ordering::Less);
    assert_eq!(base.cmp(&different_month), Ordering::Less);
    assert_eq!(base.cmp(&different_day), Ordering::Less);
}

#[test]
fn fixed_compare_equal() {
    let base = Fixed::new(1, 1, 1);
    assert_eq!(base.cmp(&base), Ordering::Equal)
}

#[test]
fn fixed_compare_more() {
    let base = Fixed::new(1, 1, 1);
    let different_year = Fixed::new(1, 1, 2);
    let different_month = Fixed::new(1, 2, 1);
    let different_day = Fixed::new(2, 1, 1);
    assert_eq!(different_year.cmp(&base), Ordering::Greater);
    assert_eq!(different_month.cmp(&base), Ordering::Greater);
    assert_eq!(different_day.cmp(&base), Ordering::Greater);
}

#[test]
fn fixed_compare_today() {
    let today = Fixed::now();
    let epoch = Fixed::new(1, 1, 1970);
    assert!(epoch < today);
}

#[test]
fn any_parse_recurring() {
    assert_eq!(AnyDate::try_from("1,1").unwrap(), AnyDate::Recurring(Recurring::new(1, 1)));
}

#[test]
fn any_parse_fixed() {
    assert_eq!(AnyDate::try_from("2,2,2").unwrap(), AnyDate::Fixed(Fixed::new(2, 2, 2)));
}

#[test]
fn any_parse_neither() {
    assert!(AnyDate::try_from("3,3,").is_err());
}

#[test]
fn next_day() {
    assert_eq!(Fixed::new(1, 1, 1970).next(), Fixed::new(2, 1, 1970));
}

#[test]
fn next_month() {
    assert_eq!(Fixed::new(31, 1, 1970).next(), Fixed::new(1, 2, 1970));
}

#[test]
fn next_year() {
    assert_eq!(Fixed::new(31, 12, 1970).next(), Fixed::new(1, 1, 1971));
}

#[test]
fn next_month_february_leap() {
    assert_eq!(Fixed::new(28, 2, 2000).next(), Fixed::new(29, 2, 2000));
}

#[test]
fn next_month_february_not_leap() {
    assert_eq!(Fixed::new(28, 2, 1900).next(), Fixed::new(1, 3, 1900));
}

#[test]
fn next_walks_a_whole_year() {
    let mut d = Fixed::new(1, 1, 1971);
    for _ in 0..365 {
        d = d.next();
    }
    assert_eq!(d, Fixed::new(1, 1, 1972));
    let mut d = Fixed::new(1, 1, 1972);
    for _ in 0..366 {
        d = d.next();
    }
    assert_eq!(d, Fixed::new(1, 1, 1973));
}

#[test]
fn next_at_year_limit() {
    assert_eq!(Fixed::new(31, 12, i32::MAX).checked_next(), None);
    assert_eq!(Fixed::new(30, 12, i32::MAX).checked_next(), Some(Fixed::new(31, 12, i32::MAX)));
}

#[test]
fn leap_years() {
    assert!(calendar::date::is_leap(2000));
    assert!(calendar::date::is_leap(2024));
    assert!(!calendar::date::is_leap(1900));
    assert!(!calendar::date::is_leap(2023));
    assert!(calendar::date::is_leap(-400));
    assert!(!calendar::date::is_leap(-100));
    assert_eq!(calendar::date::last_day(2, 2024), 29);
    assert_eq!(calendar::date::last_day(4, 2023), 30);
    assert_eq!(calendar::date::last_day(13, 2023), 31);
}

#[test]
fn next_match_leap_day_in_common_year() {
    let leap_day = Fixed::new(29, 2, 2000);
    assert_eq!(leap_day.next_match_at(Fixed::new(1, 3, 2024)), Fixed::new(28, 2, 2025));
    assert_eq!(leap_day.next_match_at(Fixed::new(1, 3, 2023)), Fixed::new(29, 2, 2024));
    assert_eq!(leap_day.next_match_at(Fixed::new(1, 1, 2023)), Fixed::new(28, 2, 2023));
}

#[test]
fn next_match_window() {
    let d = Fixed::new(15, 6, 1980);
    assert_eq!(d.next_match_at(Fixed::new(15, 6, 2023)), Fixed::new(15, 6, 2023));
    assert_eq!(d.next_match_at(Fixed::new(16, 6, 2023)), Fixed::new(15, 6, 2024));
    assert_eq!(d.next_match_at(Fixed::new(14, 6, 2023)), Fixed::new(15, 6, 2023));
    assert_eq!(d.year_diff(d.next_match_at(Fixed::new(16, 6, 2023))), 44);
}

#[test]
fn days_between_dates() {
    assert_eq!(Fixed::new(1, 7, 2023).to(Fixed::new(31, 8, 2023)), 61);
    assert_eq!(Fixed::new(1, 1, 2024).to(Fixed::new(1, 1, 2025)), 366);
    assert_eq!(Fixed::new(5, 5, 2023).to(Fixed::new(5, 5, 2023)), 0);
    assert_eq!(Fixed::new(6, 5, 2023).to(Fixed::new(5, 5, 2023)), 0);
}

#[test]
fn display_round_trip() {
    assert_eq!(Recurring::try_from("3,7").unwrap().to_text(), "03/07");
    assert_eq!(Recurring::try_from("25,12").unwrap().to_text(), "25/12");
    assert_eq!(Fixed::try_from("3,7,986").unwrap().to_text(), "03/07/0986");
    assert_eq!(Fixed::try_from("1,1,2023").unwrap().to_text(), "01/01/2023");
    assert_eq!(Fixed::try_from("1,1,-5").unwrap().to_text(), "01/01/-005");
    assert_eq!(Fixed::try_from("1,1,12345").unwrap().to_text(), "01/01/12345");
}

#[test]
fn parse_errors() {
    assert_eq!(Recurring::parse("1"), Err(Error::Missing(Field::Month)));
    assert_eq!(Recurring::parse("1,2,3"), Err(Error::Extra(',')));
    assert_eq!(Recurring::parse("x,2"), Err(Error::Invalid(Field::Day)));
    assert_eq!(Recurring::parse("1,y"), Err(Error::Invalid(Field::Month)));
    assert_eq!(Fixed::parse("1"), Err(Error::Missing(Field::Month)));
    assert_eq!(Fixed::parse("1,2"), Err(Error::Missing(Field::Year)));
    assert_eq!(Fixed::parse("1,2,z"), Err(Error::Invalid(Field::Year)));
    assert_eq!(Fixed::parse("1,2,3,4"), Err(Error::Extra(',')));
    assert_eq!(Fixed::parse("1,2,2147483648"), Err(Error::Invalid(Field::Year)));
    assert_eq!(Fixed::parse("1,2,-2147483648").unwrap().year, i32::MIN);
    assert_eq!(Fixed::parse("+1,2,+3"), Ok(Fixed::new(1, 2, 3)));
    assert_eq!(Recurring::parse("4294967296,1"), Err(Error::Invalid(Field::Day)));
    assert_eq!(AnyDate::parse("1"), Err(Error::NoDateFormat));
}

#[test]
fn trimming_keeps_values() {
    assert_eq!(Fixed::parse("\t1 ,\u{3000}2\n, 3 "), Ok(Fixed::new(1, 2, 3)));
}

#[test]
fn error_reasons() {
    assert_eq!(Fixed::parse("5,5").unwrap_err().reason(), "missing 'year' slot");
    assert_eq!(Recurring::parse("7,7,7").unwrap_err().reason(), "extra ',' found");
    assert_eq!(Recurring::parse("-5,5").unwrap_err().reason(), "failed to parse day");
    assert_eq!(AnyDate::parse("3,3,").unwrap_err().reason(), "no Date format matched");
}
