use calendar::date::{AnyDate, Fixed, Recurring};
use calendar::error::Error;
use calendar::event::{EventKind, IntoEvents};
use calendar::person::{parse_name, Person};

#[test]
fn name_parse_full() {
    assert_eq!(parse_name("Richard, SARTORI, me").unwrap(), String::from("me"));
}

#[test]
fn name_parse_nickname_only() {
    assert_eq!(parse_name(",,Rick").unwrap(), String::from("Rick"));
}

#[test]
fn name_parse_with_spaces() {
    assert_eq!(parse_name(",,  with spaces  ").unwrap(), String::from("with spaces"));
}

#[test]
fn name_parse_first_name_only() {
    assert_eq!(parse_name("Richard,,").unwrap(), String::from("Richard"));
}

#[test]
fn name_parse_both_names() {
    assert_eq!(parse_name("Richard,SARTORI,").unwrap(), String::from("Richard SARTORI"));
}

#[test]
fn name_parse_last_name_only() {
    assert!(parse_name(",SARTORI,").is_err());
}

#[test]
fn name_parse_missing_slot() {
    assert!(parse_name("Richard,SARTORI").is_err());
}

#[test]
fn name_parse_extra_slot() {
    assert!(parse_name("Richard,SARTORI,Rick,me").is_err());
}

fn new_person(
    name: &str,
    birthday: Option<AnyDate>,
    saint_day: Option<Recurring>,
    wedding_day: Option<AnyDate>,
) -> Person {
    Person { name: String::from(name), birthday, saint_day, wedding_day }
}

#[test]
fn person_parse_full() {
    assert_eq!(
        Person::parse("a,b,c;1,1,1;2,2;3,3,3").unwrap(),
        new_person(
            "c",
            Some(AnyDate::Fixed(Fixed::new(1, 1, 1))),
            Some(Recurring::new(2, 2)),
            Some(AnyDate::Fixed(Fixed::new(3, 3, 3)))
        )
    );
}

#[test]
fn person_parse_missing_nickname() {
    assert_eq!(
        Person::parse("a,b,;1,1,1;2,2;3,3,3").unwrap(),
        new_person(
            "a b",
            Some(AnyDate::Fixed(Fixed::new(1, 1, 1))),
            Some(Recurring::new(2, 2)),
            Some(AnyDate::Fixed(Fixed::new(3, 3, 3)))
        )
    );
}

#[test]
fn person_parse_with_spaces() {
    assert_eq!(
        Person::parse(" a , b , c ; 1 , 1 , 1 ; 2 , 2 ; 3 , 3 , 3 ").unwrap(),
        new_person(
            "c",
            Some(AnyDate::Fixed(Fixed::new(1, 1, 1))),
            Some(Recurring::new(2, 2)),
            Some(AnyDate::Fixed(Fixed::new(3, 3, 3)))
        )
    );
}

#[test]
fn person_parse_without_birthday() {
    assert_eq!(
        Person::parse("a,b,c;;2,2;3,3,3").unwrap(),
        new_person(
            "c",
            None,
            Some(Recurring::new(2, 2)),
            Some(AnyDate::Fixed(Fixed::new(3, 3, 3)))
        )
    );
}

#[test]
fn person_parse_without_birthday_year() {
    assert_eq!(
        Person::parse("a,b,c;1,1;2,2;3,3,3").unwrap(),
        new_person(
            "c",
            Some(AnyDate::Recurring(Recurring::new(1, 1))),
            Some(Recurring::new(2, 2)),
            Some(AnyDate::Fixed(Fixed::new(3, 3, 3)))
        )
    );
}

#[test]
fn person_parse_without_saint() {
    assert_eq!(
        Person::parse("a,b,c;1,1,1;;3,3,3").unwrap(),
        new_person(
            "c",
            Some(AnyDate::Fixed(Fixed::new(1, 1, 1))),
            None,
            Some(AnyDate::Fixed(Fixed::new(3, 3, 3)))
        )
    );
}

#[test]
fn person_parse_without_wedding() {
    assert_eq!(
        Person::parse("a,b,c;1,1,1;2,2;").unwrap(),
        new_person(
            "c",
            Some(AnyDate::Fixed(Fixed::new(1, 1, 1))),
            Some(Recurring::new(2, 2)),
            None
        )
    );
}

#[test]
fn person_parse_without_wedding_year() {
    assert_eq!(
        Person::parse("a,b,c;1,1,1;2,2;3,3").unwrap(),
        new_person(
            "c",
            Some(AnyDate::Fixed(Fixed::new(1, 1, 1))),
            Some(Recurring::new(2, 2)),
            Some(AnyDate::Recurring(Recurring::new(3, 3)))
        )
    );
}

#[test]
fn person_parse_empty() {
    assert_eq!(Person::parse("a,b,c;;;").unwrap(), new_person("c", None, None, None));
}

#[test]
fn person_parse_missing_slot() {
    assert!(Person::parse("a,b,c;1,1,1;2,2").is_err());
}

#[test]
fn person_parse_extra_slot() {
    assert!(Person::parse("a,b,c;1,1,1;2,2;3,3,3;4,4,4").is_err());
}

#[test]
fn person_parse_invalid_saint() {
    assert!(Person::parse("a,b,c;1,1,1;2,2,2;3,3,3").is_err());
}

#[test]
fn person_name_precedence() {
    assert_eq!(Person::parse("a,b,,;1,1,1;2,2;3,3"), Err(Error::Extra(',')));
    assert_eq!(Person::parse("a,b,;1,1,1;2,2;3,3").unwrap().name, "a b");
    assert_eq!(Person::parse("a,b,n;1,1,1;2,2;3,3").unwrap().name, "n");
    assert_eq!(Person::parse("a,,;1,1,1;2,2;3,3").unwrap().name, "a");
    assert_eq!(Person::parse(",b,;1,1,1;2,2;3,3"), Err(Error::NameRequired));
}

#[test]
fn person_events_count_years() {
    let p = Person::parse("Ann,Lee,;10,5,1990;2,2;20,6,2015").unwrap();
    let events = p.into_events_at(Fixed::new(1, 6, 2023));
    assert_eq!(events.len(), 3);
    assert!(events[0].kind == EventKind::Birthday);
    assert_eq!(events[0].date, Fixed::new(10, 5, 2024));
    assert_eq!(events[0].desc, "Ann Lee (age 34)");
    assert!(events[1].kind == EventKind::SaintDay);
    assert_eq!(events[1].date, Fixed::new(2, 2, 2024));
    assert_eq!(events[1].desc, "Ann Lee");
    assert!(events[2].kind == EventKind::Wedding);
    assert_eq!(events[2].date, Fixed::new(20, 6, 2023));
    assert_eq!(events[2].desc, "Ann Lee (year 8)");
}

#[test]
fn person_events_without_year() {
    let p = Person::parse("Bo,,;29,2;;").unwrap();
    let events = p.into_events_at(Fixed::new(1, 1, 2023));
    assert_eq!(events.len(), 1);
    assert_eq!(events[0].date, Fixed::new(28, 2, 2023));
    assert_eq!(events[0].desc, "Bo");
    let future = Person::parse("Cy,,;1,1,2100;;").unwrap();
    let events = future.into_events_at(Fixed::new(1, 1, 2023));
    assert_eq!(events[0].desc, "Cy (age -77)");
}
