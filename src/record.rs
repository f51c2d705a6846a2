//! Record lines: `kind=body`, with `kind` one of `person`, `holiday`, `special`.

use vstd::prelude::*;
use vstd::string::*;
use crate::date::{clock_year, valid_ymd, Fixed};
use crate::error::{Error, Field};
use crate::event::{event_views, Event, IntoEvents, EventView};
use crate::holiday::{holiday_events, holiday_of, Holiday};
use crate::person::{name_of, person_events, person_of, Person};
use crate::special::{special_events, special_of, Special};
use crate::text::{fields, lemma_fields_nonempty, split_on, trim, trim_str};

verus! {

/// The events of the line `kind=body`, seen from `today`.
pub open spec fn line_events(s: Seq<char>, today: (int, int, int)) -> Result<Seq<EventView>, Error> {
    let p = fields(s, '=');
    if p.len() < 2 {
        Err(Error::Missing(Field::Body))
    } else if p.len() > 2 {
        Err(Error::Extra('='))
    } else if trim(p[0]) == "person"@ {
        match person_of(p[1]) {
            Err(e) => Err(e),
            Ok(v) => Ok(person_events(v, today)),
        }
    } else if trim(p[0]) == "holiday"@ {
        match holiday_of(p[1]) {
            Err(e) => Err(e),
            Ok(v) => Ok(holiday_events(v, today)),
        }
    } else if trim(p[0]) == "special"@ {
        match special_of(p[1]) {
            Err(e) => Err(e),
            Ok(v) => Ok(special_events(v)),
        }
    } else {
        Err(Error::UnknownKind)
    }
}

fn same_text(a: &str, b: &str) -> (r: bool)
    ensures
        r == (a@ == b@),
{
    let n = a.unicode_len();
    if n != b.unicode_len() {
        return false;
    }
    let mut i: usize = 0;
    while i < n
        invariant
            n == a@.len(),
            n == b@.len(),
            i <= n,
            a@.take(i as int) == b@.take(i as int),
        decreases n - i,
    {
        if a.get_char(i) != b.get_char(i) {
            return false;
        }
        assert(a@.take(i + 1) =~= a@.take(i as int).push(a@[i as int]));
        assert(b@.take(i + 1) =~= b@.take(i as int).push(b@[i as int]));
        i += 1;
    }
    assert(a@.take(n as int) =~= a@);
    assert(b@.take(n as int) =~= b@);
    true
}

/// The events of the line `kind=body`, with `today` as the current date.
pub fn extract_at(line: &str, today: Fixed) -> (r: Result<Vec<Event>, Error>)
    requires
        today.year < i32::MAX,
    ensures
        match r {
            Ok(v) => line_events(line@, today@) == Ok::<Seq<EventView>, Error>(event_views(v@)),
            Err(e) => line_events(line@, today@) == Err::<Seq<EventView>, Error>(e),
        },
{
    let parts = split_on(line, '=');
    proof {
        lemma_fields_nonempty(line@, '=');
    }
    if parts.len() < 2 {
        return Err(Error::Missing(Field::Body));
    }
    if parts.len() > 2 {
        return Err(Error::Extra('='));
    }
    assert(parts@[0]@ == fields(line@, '=')[0]);
    assert(parts@[1]@ == fields(line@, '=')[1]);
    let kind = trim_str(parts[0]);
    if same_text(kind, "person") {
        return match Person::parse(parts[1]) {
            Ok(p) => Ok(p.into_events_at(today)),
            Err(e) => Err(e),
        };
    }
    if same_text(kind, "holiday") {
        return match Holiday::parse(parts[1]) {
            Ok(h) => Ok(h.into_events_at(today)),
            Err(e) => Err(e),
        };
    }
    if same_text(kind, "special") {
        return match Special::parse(parts[1]) {
            Ok(s) => Ok(s.into_events_at(today)),
            Err(e) => Err(e),
        };
    }
    Err(Error::UnknownKind)
}

/// Reads the line `kind=body` and appends its events to `vec`, with `today`
/// as the current date; on an error `vec` is left as it was.
pub fn add_from_at(line: &str, vec: &mut Vec<Event>, today: Fixed) -> (r: Result<(), Error>)
    requires
        today.year < i32::MAX,
    ensures
        match line_events(line@, today@) {
            Ok(evs) => r is Ok && event_views(final(vec)@) == event_views(old(vec)@) + evs,
            Err(e) => r == Err::<(), Error>(e) && final(vec)@ == old(vec)@,
        },
{
    let mut events = match extract_at(line, today) {
        Ok(v) => v,
        Err(e) => return Err(e),
    };
    let ghost added = events@;
    let ghost start = vec@;
    vec.append(&mut events);
    assert(event_views(vec@) =~= event_views(start) + event_views(added));
    Ok(())
}

/// Reads the line `kind=body` and appends its events to `vec`, as of the
/// current date; on an error `vec` is left as it was.
pub fn add_from(line: &str, vec: &mut Vec<Event>) -> (r: Result<(), Error>)
    ensures
        exists|today: Fixed|
            valid_ymd(today@) && clock_year(today.year as int) && match line_events(
                line@,
                #[trigger] today@,
            ) {
                Ok(evs) => r is Ok && event_views(final(vec)@) == event_views(old(vec)@) + evs,
                Err(e) => r == Err::<(), Error>(e) && final(vec)@ == old(vec)@,
            },
{
    let today = Fixed::now();
    add_from_at(line, vec, today)
}

/// A wrong number of slots, too few delimiters or one too many, is refused
/// at every level of the grammar.
pub proof fn lemma_slot_counts(s: Seq<char>, today: (int, int, int))
    ensures
        fields(s, '=').len() != 2 ==> line_events(s, today) is Err,
        fields(s, ';').len() != 4 ==> person_of(s) is Err,
        fields(s, ',').len() != 3 ==> name_of(s) is Err,
        fields(s, ';').len() < 2 || fields(s, ';').len() > 3 ==> holiday_of(s) is Err,
        fields(s, ';').len() != 2 ==> special_of(s) is Err,
{
    lemma_fields_nonempty(s, '=');
    lemma_fields_nonempty(s, ';');
    lemma_fields_nonempty(s, ',');
}

} // verus!
