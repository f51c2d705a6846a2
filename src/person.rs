//! Person records: `first,last,nickname; birthday; saint day; wedding day`.

use vstd::prelude::*;
use vstd::string::*;
use crate::date::{any_date_of, match_from, recurring_of, AnyDate, Fixed, Recurring};
use crate::error::{Error, Field};
use crate::event::{event_views, Event, EventKind, EventView, IntoEvents};
use crate::text::{fields, lemma_fields_nonempty, push_signed, signed_decimal, split_on, trim, trim_str};

verus! {

#[derive(Debug, PartialEq, Eq)]
pub struct Person {
    pub name: String,
    pub birthday: Option<AnyDate>,
    pub saint_day: Option<Recurring>,
    pub wedding_day: Option<AnyDate>,
}

/// Name, birthday, saint day, wedding day.
pub type PersonView = (Seq<char>, Option<AnyDate>, Option<Recurring>, Option<AnyDate>);

impl View for Person {
    type V = PersonView;

    open spec fn view(&self) -> PersonView {
        (self.name@, self.birthday, self.saint_day, self.wedding_day)
    }
}

/// `first,last,nickname`: the nickname where there is one, else the first
/// name followed by the last name where there is one.
pub open spec fn name_of(s: Seq<char>) -> Result<Seq<char>, Error> {
    let p = fields(s, ',');
    if p.len() < 2 {
        Err(Error::Missing(Field::LastName))
    } else if p.len() < 3 {
        Err(Error::Missing(Field::Nickname))
    } else if p.len() > 3 {
        Err(Error::Extra(','))
    } else {
        let first = trim(p[0]);
        let last = trim(p[1]);
        let nick = trim(p[2]);
        if nick.len() > 0 {
            Ok(nick)
        } else if first.len() == 0 {
            Err(Error::NameRequired)
        } else if last.len() == 0 {
            Ok(first)
        } else {
            Ok(first + seq![' '] + last)
        }
    }
}

/// An optional date with or without a year: blank means absent.
pub open spec fn optional_any_date(s: Seq<char>) -> Result<Option<AnyDate>, Error> {
    if trim(s).len() == 0 {
        Ok(None)
    } else {
        match any_date_of(s) {
            Ok(d) => Ok(Some(d)),
            Err(e) => Err(e),
        }
    }
}

/// An optional date without a year: blank means absent.
pub open spec fn optional_recurring(s: Seq<char>) -> Result<Option<Recurring>, Error> {
    if trim(s).len() == 0 {
        Ok(None)
    } else {
        match recurring_of(s) {
            Ok(d) => Ok(Some(d)),
            Err(e) => Err(e),
        }
    }
}

/// `name; birthday; saint day; wedding day`.
pub open spec fn person_of(s: Seq<char>) -> Result<PersonView, Error> {
    let p = fields(s, ';');
    if p.len() < 2 {
        Err(Error::Missing(Field::Birthday))
    } else if p.len() < 3 {
        Err(Error::Missing(Field::SaintDay))
    } else if p.len() < 4 {
        Err(Error::Missing(Field::WeddingDay))
    } else if p.len() > 4 {
        Err(Error::Extra(';'))
    } else {
        match name_of(p[0]) {
            Err(e) => Err(e),
            Ok(name) => match optional_any_date(p[1]) {
                Err(e) => Err(e),
                Ok(birthday) => match optional_recurring(p[2]) {
                    Err(e) => Err(e),
                    Ok(saint_day) => match optional_any_date(p[3]) {
                        Err(e) => Err(e),
                        Ok(wedding_day) => Ok((name, birthday, saint_day, wedding_day)),
                    },
                },
            },
        }
    }
}

/// The next occurrence of `d` from `today`, and for a date with a year the
/// number of years since it.
pub open spec fn dated(d: AnyDate, today: (int, int, int)) -> ((int, int, int), Option<int>) {
    match d {
        AnyDate::Recurring(r) => (match_from((today.0, r.month as int, r.day as int), today), None),
        AnyDate::Fixed(f) => {
            let next = match_from(f@, today);
            (next, Some(next.0 - f.year))
        },
    }
}

/// The name, followed by the count where there is one: `name (age 7)`.
pub open spec fn described(name: Seq<char>, count: Option<int>, label: Seq<char>) -> Seq<char> {
    match count {
        None => name,
        Some(n) => name + label + signed_decimal(n) + ")"@,
    }
}

pub open spec fn person_events(p: PersonView, today: (int, int, int)) -> Seq<EventView> {
    let birthday = match p.1 {
        None => Seq::empty(),
        Some(d) => seq![
            (EventKind::Birthday, dated(d, today).0, described(p.0, dated(d, today).1, " (age "@)),
        ],
    };
    let saint_day = match p.2 {
        None => Seq::empty(),
        Some(r) => seq![
            (EventKind::SaintDay, match_from((today.0, r.month as int, r.day as int), today), p.0),
        ],
    };
    let wedding = match p.3 {
        None => Seq::empty(),
        Some(d) => seq![
            (EventKind::Wedding, dated(d, today).0, described(p.0, dated(d, today).1, " (year "@)),
        ],
    };
    birthday + saint_day + wedding
}

/// Reads `first,last,nickname` into the name to show.
pub fn parse_name(value: &str) -> (r: Result<String, Error>)
    ensures
        match r {
            Ok(n) => name_of(value@) == Ok::<Seq<char>, Error>(n@),
            Err(e) => name_of(value@) == Err::<Seq<char>, Error>(e),
        },
{
    let parts = split_on(value, ',');
    proof {
        lemma_fields_nonempty(value@, ',');
    }
    if parts.len() < 2 {
        return Err(Error::Missing(Field::LastName));
    }
    if parts.len() < 3 {
        return Err(Error::Missing(Field::Nickname));
    }
    if parts.len() > 3 {
        return Err(Error::Extra(','));
    }
    assert(parts@[0]@ == fields(value@, ',')[0]);
    assert(parts@[1]@ == fields(value@, ',')[1]);
    assert(parts@[2]@ == fields(value@, ',')[2]);
    let first = trim_str(parts[0]);
    let last = trim_str(parts[1]);
    let nickname = trim_str(parts[2]);
    if nickname.unicode_len() > 0 {
        return Ok(String::from_str(nickname));
    }
    if first.unicode_len() == 0 {
        return Err(Error::NameRequired);
    }
    if last.unicode_len() == 0 {
        return Ok(String::from_str(first));
    }
    let mut name = String::from_str(first);
    proof {
        reveal_strlit(" ");
    }
    name.append(" ");
    name.append(last);
    assert(name@ =~= first@ + seq![' '] + last@);
    Ok(name)
}

fn parse_optional_any(value: &str) -> (r: Result<Option<AnyDate>, Error>)
    ensures
        r == optional_any_date(value@),
{
    if trim_str(value).unicode_len() == 0 {
        Ok(None)
    } else {
        match AnyDate::parse(value) {
            Ok(d) => Ok(Some(d)),
            Err(e) => Err(e),
        }
    }
}

fn parse_optional_recurring(value: &str) -> (r: Result<Option<Recurring>, Error>)
    ensures
        r == optional_recurring(value@),
{
    if trim_str(value).unicode_len() == 0 {
        Ok(None)
    } else {
        match Recurring::parse(value) {
            Ok(d) => Ok(Some(d)),
            Err(e) => Err(e),
        }
    }
}

impl Person {
    /// Reads `name; birthday; saint day; wedding day`.
    pub fn parse(value: &str) -> (r: Result<Person, Error>)
        ensures
            match r {
                Ok(p) => person_of(value@) == Ok::<PersonView, Error>(p@),
                Err(e) => person_of(value@) == Err::<PersonView, Error>(e),
            },
    {
        let parts = split_on(value, ';');
        proof {
            lemma_fields_nonempty(value@, ';');
        }
        if parts.len() < 2 {
            return Err(Error::Missing(Field::Birthday));
        }
        if parts.len() < 3 {
            return Err(Error::Missing(Field::SaintDay));
        }
        if parts.len() < 4 {
            return Err(Error::Missing(Field::WeddingDay));
        }
        if parts.len() > 4 {
            return Err(Error::Extra(';'));
        }
        assert(parts@[0]@ == fields(value@, ';')[0]);
        assert(parts@[1]@ == fields(value@, ';')[1]);
        assert(parts@[2]@ == fields(value@, ';')[2]);
        assert(parts@[3]@ == fields(value@, ';')[3]);
        let name = match parse_name(parts[0]) {
            Ok(n) => n,
            Err(e) => return Err(e),
        };
        let birthday = match parse_optional_any(parts[1]) {
            Ok(d) => d,
            Err(e) => return Err(e),
        };
        let saint_day = match parse_optional_recurring(parts[2]) {
            Ok(d) => d,
            Err(e) => return Err(e),
        };
        let wedding_day = match parse_optional_any(parts[3]) {
            Ok(d) => d,
            Err(e) => return Err(e),
        };
        Ok(Person { name, birthday, saint_day, wedding_day })
    }
}

/// The next occurrence of `date` from `today`, and for a date with a year the
/// number of years since it.
pub fn get_next_and_diff(date: AnyDate, today: Fixed) -> (r: (Fixed, Option<i64>))
    requires
        today.year < i32::MAX,
    ensures
        r.0@ == dated(date, today@).0,
        match r.1 {
            None => dated(date, today@).1 is None,
            Some(n) => dated(date, today@).1 == Some(n as int),
        },
{
    match date {
        AnyDate::Recurring(recurring) => {
            let fixed = Fixed { year: today.year, date: recurring };
            (fixed.next_match_at(today), None)
        },
        AnyDate::Fixed(fixed) => {
            let next = fixed.next_match_at(today);
            (next, Some(next.year as i64 - fixed.year as i64))
        },
    }
}

fn describe(name: &String, count: Option<i64>, label: &str) -> (r: String)
    requires
        count is Some ==> count->0 > i64::MIN,
    ensures
        r@ == described(
            name@,
            match count {
                None => None,
                Some(n) => Some(n as int),
            },
            label@,
        ),
{
    let mut desc = name.clone();
    match count {
        None => {},
        Some(n) => {
            desc.append(label);
            push_signed(&mut desc, n);
            desc.append(")");
        },
    }
    desc
}

impl IntoEvents for Person {
    open spec fn expected(&self, today: (int, int, int)) -> Seq<EventView> {
        person_events(self@, today)
    }

    fn into_events_at(self, today: Fixed) -> (r: Vec<Event>) {
        let mut vec: Vec<Event> = Vec::new();
        if let Some(birthday) = self.birthday {
            let (date, age) = get_next_and_diff(birthday, today);
            let desc = describe(&self.name, age, " (age ");
            vec.push(Event { kind: EventKind::Birthday, date, desc });
        }
        let ghost after_birthday = vec@;
        if let Some(saint_day) = self.saint_day {
            let fixed = Fixed { year: today.year, date: saint_day };
            vec.push(
                Event { kind: EventKind::SaintDay, date: fixed.next_match_at(today), desc: self.name.clone() },
            );
        }
        let ghost after_saint_day = vec@;
        if let Some(wedding_day) = self.wedding_day {
            let (date, year) = get_next_and_diff(wedding_day, today);
            let desc = describe(&self.name, year, " (year ");
            vec.push(Event { kind: EventKind::Wedding, date, desc });
        }
        assert(event_views(vec@) =~= person_events(self@, today@));
        vec
    }
}

} // verus!
