//! One-off events: `description; day,month,year`.

use vstd::prelude::*;
use vstd::string::*;
use crate::date::{fixed_of, Fixed};
use crate::error::{Error, Field};
use crate::event::{event_views, Event, EventKind, EventView, IntoEvents};
use crate::text::{fields, lemma_fields_nonempty, split_on, trim, trim_str};

verus! {

#[derive(Debug, PartialEq, Eq)]
pub struct Special {
    pub desc: String,
    pub date: Fixed,
}

impl View for Special {
    type V = (Seq<char>, Fixed);

    open spec fn view(&self) -> (Seq<char>, Fixed) {
        (self.desc@, self.date)
    }
}

/// `description; day,month,year`.
pub open spec fn special_of(s: Seq<char>) -> Result<(Seq<char>, Fixed), Error> {
    let p = fields(s, ';');
    if p.len() < 2 {
        Err(Error::Missing(Field::Date))
    } else if p.len() > 2 {
        Err(Error::Extra(';'))
    } else {
        match fixed_of(p[1]) {
            Err(e) => Err(e),
            Ok(date) => Ok((trim(p[0]), date)),
        }
    }
}

pub open spec fn special_events(s: (Seq<char>, Fixed)) -> Seq<EventView> {
    seq![(EventKind::Special, s.1@, s.0)]
}

impl Special {
    /// Reads `description; day,month,year`.
    pub fn parse(value: &str) -> (r: Result<Special, Error>)
        ensures
            match r {
                Ok(v) => special_of(value@) == Ok::<(Seq<char>, Fixed), Error>(v@),
                Err(e) => special_of(value@) == Err::<(Seq<char>, Fixed), Error>(e),
            },
    {
        let parts = split_on(value, ';');
        proof {
            lemma_fields_nonempty(value@, ';');
        }
        if parts.len() < 2 {
            return Err(Error::Missing(Field::Date));
        }
        if parts.len() > 2 {
            return Err(Error::Extra(';'));
        }
        assert(parts@[0]@ == fields(value@, ';')[0]);
        assert(parts@[1]@ == fields(value@, ';')[1]);
        let desc = String::from_str(trim_str(parts[0]));
        let date = match Fixed::parse(parts[1]) {
            Ok(d) => d,
            Err(e) => return Err(e),
        };
        Ok(Special { desc, date })
    }
}

impl IntoEvents for Special {
    open spec fn expected(&self, today: (int, int, int)) -> Seq<EventView> {
        special_events(self@)
    }

    fn into_events_at(self, today: Fixed) -> (r: Vec<Event>) {
        let mut vec: Vec<Event> = Vec::new();
        vec.push(Event { kind: EventKind::Special, date: self.date, desc: self.desc });
        assert(event_views(vec@) =~= special_events(self@));
        vec
    }
}

} // verus!
