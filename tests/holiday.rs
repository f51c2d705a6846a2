use calendar::date::{Fixed, Recurring};
use calendar::error::Error;
use calendar::event::{EventKind, IntoEvents};
use calendar::holiday::{Holiday, HolidayKind};

fn new_recurring() -> Holiday {
    Holiday { desc: String::from("Christmas"), kind: HolidayKind::Recurring(Recurring::new(25, 12)) }
}

fn new_fixed() -> Holiday {
    Holiday { desc: String::from("Easter"), kind: HolidayKind::Fixed(Fixed::new(9, 4, 2023)) }
}

fn new_span() -> Holiday {
    Holiday {
        desc: String::from("Summer"),
        kind: HolidayKind::Span(Fixed::new(1, 7, 2023), Fixed::new(31, 8, 2023)),
    }
}

#[test]
fn holiday_parse_recurring() {
    assert_eq!(Holiday::parse("   Christmas   ;25,12").unwrap(), new_recurring());
}

#[test]
fn holiday_parse_recurring_invalid() {
    assert_ne!(Holiday::parse("Christmas;25,12,2000").unwrap(), new_recurring());
    assert_ne!(Holiday::parse("Christmas;25,12,2000;25,12,2000").unwrap(), new_recurring());
}

#[test]
fn holiday_parse_fixed() {
    assert_eq!(Holiday::parse("Easter;  9 ,  4    ,2023  ").unwrap(), new_fixed());
    assert_eq!(Holiday::parse("Easter;9,4,2023;9,4,2023").unwrap(), new_fixed());
}

#[test]
fn holiday_parse_fixed_invalid() {
    assert_ne!(Holiday::parse("Easter;9,4").unwrap(), new_fixed());
}

#[test]
fn holiday_parse_span() {
    assert_eq!(Holiday::parse("Summer;1,7,2023;  31 ,8  ,    2023").unwrap(), new_span());
}

#[test]
fn holiday_parse_span_invalid() {
    assert!(Holiday::parse("Summer;1,7,2023;31,8,2023;0,0,0").is_err());
    assert_ne!(Holiday::parse("Summer;1,7").unwrap(), new_span());
    assert_ne!(Holiday::parse("Summer;1,7,2023").unwrap(), new_span());
}

#[test]
fn holiday_parse_errors() {
    assert_eq!(Holiday::parse("Summer;31,8,2023;1,7,2023"), Err(Error::BeginAfterEnd));
    assert_eq!(Holiday::parse("Summer;x"), Err(Error::NoHolidayFormat));
    assert!(Holiday::parse("Summer").is_err());
}

#[test]
fn holiday_span_countdown() {
    let events = new_span().into_events_at(Fixed::new(1, 1, 2023));
    assert_eq!(events.len(), 62);
    assert_eq!(events[0].date, Fixed::new(1, 7, 2023));
    assert_eq!(events[0].desc, "Summer (61 days remaining)");
    assert_eq!(events[61].date, Fixed::new(31, 8, 2023));
    assert_eq!(events[61].desc, "Summer (0 days remaining)");
    assert!(events.iter().all(|e| e.kind == EventKind::Holiday));
}

#[test]
fn holiday_single_events() {
    let events = new_recurring().into_events_at(Fixed::new(26, 12, 2023));
    assert_eq!(events.len(), 1);
    assert_eq!(events[0].date, Fixed::new(25, 12, 2024));
    assert_eq!(events[0].desc, "Christmas");
    let events = new_fixed().into_events_at(Fixed::new(1, 1, 2024));
    assert_eq!(events[0].date, Fixed::new(9, 4, 2024));
}
