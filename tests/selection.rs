use calendar::date::Fixed;
use calendar::error::{Error, Field};
use calendar::event::{get_next, get_next_at, Event, EventKind};
use calendar::record::{add_from, add_from_at, extract_at};
use calendar::text::{parse_i32, parse_u32, split_on, trim_str};

fn event(kind: EventKind, date: Fixed, desc: &str) -> Event {
    Event { kind, date, desc: String::from(desc) }
}

#[test]
fn selection_keeps_ties_in_order() {
    let today = Fixed::new(1, 1, 2024);
    let events = vec![
        event(EventKind::Birthday, Fixed::new(5, 3, 2024), "late"),
        event(EventKind::Birthday, Fixed::new(2, 2, 2024), "first"),
        event(EventKind::Holiday, Fixed::new(1, 2, 2024), "other kind"),
        event(EventKind::Birthday, Fixed::new(31, 12, 2023), "past"),
        event(EventKind::Birthday, Fixed::new(2, 2, 2024), "second"),
    ];
    let next = get_next_at(&events, EventKind::Birthday, today);
    let names: Vec<&str> = next.iter().map(|e| e.desc.as_str()).collect();
    assert_eq!(names, vec!["first", "second"]);
}

#[test]
fn selection_unique_and_empty() {
    let today = Fixed::new(1, 1, 2024);
    let events = vec![
        event(EventKind::Wedding, Fixed::new(1, 1, 2024), "today"),
        event(EventKind::Wedding, Fixed::new(2, 1, 2024), "tomorrow"),
    ];
    let next = get_next_at(&events, EventKind::Wedding, today);
    assert_eq!(next.len(), 1);
    assert_eq!(next[0].desc, "today");
    assert!(get_next_at(&events, EventKind::Special, today).is_empty());
    assert!(get_next(&Vec::new(), EventKind::Holiday).is_empty());
}

#[test]
fn record_lines() {
    let today = Fixed::new(1, 1, 2024);
    let mut events = Vec::new();
    add_from_at("person = Ann,Lee,;10,5,1990;;", &mut events, today).unwrap();
    add_from_at("special=launch;5,5,2030", &mut events, today).unwrap();
    add_from_at(" holiday =Summer;1,7,2024;3,7,2024", &mut events, today).unwrap();
    assert_eq!(events.len(), 5);
    assert_eq!(events[0].desc, "Ann Lee (age 34)");
    assert_eq!(events[4].desc, "Summer (0 days remaining)");
    assert!(add_from("special=x;1,1,3000", &mut events).is_ok());
    assert_eq!(events.len(), 6);
}

#[test]
fn record_line_errors() {
    let today = Fixed::new(1, 1, 2024);
    let mut events = Vec::new();
    assert_eq!(add_from_at("person", &mut events, today), Err(Error::Missing(Field::Body)));
    assert_eq!(add_from_at("a=b=c", &mut events, today), Err(Error::Extra('=')));
    assert_eq!(add_from_at("birthday=x;1,1", &mut events, today), Err(Error::UnknownKind));
    assert_eq!(add_from_at("person=a,b;;;", &mut events, today), Err(Error::Missing(Field::Nickname)));
    assert_eq!(add_from_at("person=a,b,c;;", &mut events, today), Err(Error::Missing(Field::WeddingDay)));
    assert_eq!(add_from_at("special=x;1,1,1;", &mut events, today), Err(Error::Extra(';')));
    assert!(extract_at("holiday=x", today).is_err());
    assert!(events.is_empty());
}

#[test]
fn kind_labels_in_report_order() {
    let labels: Vec<&str> = calendar::event::KIND_LIST.iter().map(|k| k.label()).collect();
    assert_eq!(labels, vec!["birthday", "saint day", "wedding anniversary", "holiday", "special"]);
}

#[test]
fn text_helpers() {
    assert_eq!(split_on("a;;b;", ';'), vec!["a", "", "b", ""]);
    assert_eq!(split_on("", ';'), vec![""]);
    assert_eq!(trim_str(" \t x y \u{a0}"), "x y");
    assert_eq!(parse_u32("+42"), Some(42));
    assert_eq!(parse_u32("-0"), None);
    assert_eq!(parse_u32("4294967295"), Some(u32::MAX));
    assert_eq!(parse_i32("-17"), Some(-17));
    assert_eq!(parse_i32("+-1"), None);
    assert_eq!(parse_i32(""), None);
}
