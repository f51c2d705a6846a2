//! Holiday records: `description; begin[; end]`.

use vstd::prelude::*;
use vstd::string::*;
use crate::date::{
    before, days_between, fixed_of, following, in_range, lemma_walk_days, lemma_walk_step,
    match_from, recurring_of, walk, Fixed, Recurring,
};
use crate::error::{Error, Field};
use crate::event::{event_views, Event, EventKind, EventView, IntoEvents};
use crate::text::{decimal, fields, lemma_fields_nonempty, push_decimal, split_on, trim, trim_str};

verus! {

#[derive(Debug, Clone, Copy, PartialEq, Eq, Structural)]
pub enum HolidayKind {
    Recurring(Recurring),
    Fixed(Fixed),
    /// From the first date to the second, both included.
    Span(Fixed, Fixed),
}

#[derive(Debug, PartialEq, Eq)]
pub struct Holiday {
    pub desc: String,
    pub kind: HolidayKind,
}

impl View for Holiday {
    type V = (Seq<char>, HolidayKind);

    open spec fn view(&self) -> (Seq<char>, HolidayKind) {
        (self.desc@, self.kind)
    }
}

/// `description; begin[; end]`: with an end, two dates with years, equal or
/// in order; without one, a date without a year where that reads, else one with.
pub open spec fn holiday_of(s: Seq<char>) -> Result<(Seq<char>, HolidayKind), Error> {
    let p = fields(s, ';');
    if p.len() < 2 {
        Err(Error::Missing(Field::Begin))
    } else if p.len() > 3 {
        Err(Error::Extra(';'))
    } else {
        let desc = trim(p[0]);
        if p.len() == 3 {
            match fixed_of(p[1]) {
                Err(e) => Err(e),
                Ok(begin) => match fixed_of(p[2]) {
                    Err(e) => Err(e),
                    Ok(end) => if before(begin@, end@) {
                        Ok((desc, HolidayKind::Span(begin, end)))
                    } else if begin == end {
                        Ok((desc, HolidayKind::Fixed(begin)))
                    } else {
                        Err(Error::BeginAfterEnd)
                    },
                },
            }
        } else {
            match recurring_of(p[1]) {
                Ok(r) => Ok((desc, HolidayKind::Recurring(r))),
                Err(_) => match fixed_of(p[1]) {
                    Ok(f) => Ok((desc, HolidayKind::Fixed(f))),
                    Err(_) => Err(Error::NoHolidayFormat),
                },
            }
        }
    }
}

/// How many days of the span from `b` to `e` there are: the days before `e`,
/// and `e` itself where the walk from `b` lands on it.
pub open spec fn span_len(b: (int, int, int), e: (int, int, int)) -> nat {
    if walk(b, days_between(b, e)) == e {
        days_between(b, e) + 1
    } else {
        days_between(b, e)
    }
}

/// `desc (n days remaining)`.
pub open spec fn countdown(desc: Seq<char>, n: nat) -> Seq<char> {
    desc + " ("@ + decimal(n) + " days remaining)"@
}

pub open spec fn holiday_events(h: (Seq<char>, HolidayKind), today: (int, int, int)) -> Seq<
    EventView,
> {
    match h.1 {
        HolidayKind::Recurring(r) => seq![
            (EventKind::Holiday, match_from((today.0, r.month as int, r.day as int), today), h.0),
        ],
        HolidayKind::Fixed(f) => seq![(EventKind::Holiday, match_from(f@, today), h.0)],
        HolidayKind::Span(b, e) => Seq::new(
            span_len(b@, e@),
            |k: int|
                (
                    EventKind::Holiday,
                    walk(b@, k as nat),
                    countdown(h.0, (days_between(b@, e@) - k) as nat),
                ),
        ),
    }
}

impl Holiday {
    /// Reads `description; begin[; end]`.
    pub fn parse(value: &str) -> (r: Result<Holiday, Error>)
        ensures
            match r {
                Ok(h) => holiday_of(value@) == Ok::<(Seq<char>, HolidayKind), Error>(h@),
                Err(e) => holiday_of(value@) == Err::<(Seq<char>, HolidayKind), Error>(e),
            },
    {
        let parts = split_on(value, ';');
        proof {
            lemma_fields_nonempty(value@, ';');
        }
        if parts.len() < 2 {
            return Err(Error::Missing(Field::Begin));
        }
        if parts.len() > 3 {
            return Err(Error::Extra(';'));
        }
        assert(parts@[0]@ == fields(value@, ';')[0]);
        assert(parts@[1]@ == fields(value@, ';')[1]);
        let desc = String::from_str(trim_str(parts[0]));
        if parts.len() == 3 {
            assert(parts@[2]@ == fields(value@, ';')[2]);
            let begin = match Fixed::parse(parts[1]) {
                Ok(d) => d,
                Err(e) => return Err(e),
            };
            let end = match Fixed::parse(parts[2]) {
                Ok(d) => d,
                Err(e) => return Err(e),
            };
            if begin.precedes(&end) {
                return Ok(Holiday { desc, kind: HolidayKind::Span(begin, end) });
            } else if begin == end {
                return Ok(Holiday { desc, kind: HolidayKind::Fixed(begin) });
            } else {
                return Err(Error::BeginAfterEnd);
            }
        }
        if let Ok(begin) = Recurring::parse(parts[1]) {
            return Ok(Holiday { desc, kind: HolidayKind::Recurring(begin) });
        }
        if let Ok(begin) = Fixed::parse(parts[1]) {
            return Ok(Holiday { desc, kind: HolidayKind::Fixed(begin) });
        }
        Err(Error::NoHolidayFormat)
    }
}

/// The dates from `begin` to `end`, both included, one day apart.
fn span_dates(begin: Fixed, end: Fixed) -> (r: Vec<Fixed>)
    ensures
        r@.len() == span_len(begin@, end@),
        forall|k: int| 0 <= k < r@.len() ==> (#[trigger] r@[k])@ == walk(begin@, k as nat),
{
    let ghost b = begin@;
    let ghost e = end@;
    let ghost db = days_between(b, e);
    let mut dates: Vec<Fixed> = Vec::new();
    let mut current = begin;
    let mut done = false;
    let ghost mut g = b;
    proof {
        lemma_walk_days(b, e, 0);
    }
    while !done && !end.precedes(&current)
        invariant
            b == begin@,
            e == end@,
            in_range(b),
            in_range(e),
            g == walk(b, dates@.len() as nat),
            !done ==> current@ == g,
            done ==> before(e, g),
            forall|k: int| 0 <= k < dates@.len() ==> (#[trigger] dates@[k])@ == walk(b, k as nat),
            dates@.len() <= db + 1,
            dates@.len() == db + 1 ==> walk(b, db) == e,
            db == days_between(b, e),
        decreases db + 1 - dates@.len(),
    {
        let ghost k = dates@.len() as nat;
        let ghost cur0 = current@;
        assert(cur0 == g);
        assert(!before(e, cur0));
        proof {
            lemma_walk_days(b, e, k);
            lemma_walk_step(b, k);
            crate::date::lemma_walk_in_range(b, k);
            if k == db + 1 {
                lemma_walk_step(b, db);
                assert(before(e, following(e))) by {
                    crate::date::lemma_walk_in_range(b, db);
                    following_after(e);
                }
            }
        }
        dates.push(current);
        match current.checked_next() {
            Some(n) => {
                current = n;
            },
            None => {
                assert(following(current@).0 > i32::MAX);
                done = true;
            },
        }
        proof {
            if k == db {
                assert(!before(g, e));
                assert(g.0 == e.0 && g.1 == e.1 && g.2 == e.2);
                assert(walk(b, db) == e);
            }
            g = following(g);
            if done {
                assert(g == following(cur0));
                assert(g.0 > e.0);
                assert(before(e, g));
            }
        }
    }
    proof {
        let n = dates@.len() as nat;
        if n < db {
            lemma_walk_days(b, e, n);
        }
    }
    dates
}

proof fn following_after(a: (int, int, int))
    requires
        in_range(a),
    ensures
        before(a, following(a)),
{
}

impl IntoEvents for Holiday {
    open spec fn expected(&self, today: (int, int, int)) -> Seq<EventView> {
        holiday_events(self@, today)
    }

    fn into_events_at(self, today: Fixed) -> (r: Vec<Event>) {
        let mut vec: Vec<Event> = Vec::new();
        match self.kind {
            HolidayKind::Recurring(recurring) => {
                let fixed = Fixed { year: today.year, date: recurring };
                vec.push(
                    Event { kind: EventKind::Holiday, date: fixed.next_match_at(today), desc: self.desc },
                );
                assert(event_views(vec@) =~= holiday_events(self@, today@));
            },
            HolidayKind::Fixed(fixed) => {
                vec.push(
                    Event { kind: EventKind::Holiday, date: fixed.next_match_at(today), desc: self.desc },
                );
                assert(event_views(vec@) =~= holiday_events(self@, today@));
            },
            HolidayKind::Span(begin, end) => {
                let dates = span_dates(begin, end);
                let n = dates.len();
                let ghost db = days_between(begin@, end@);
                let top: usize = if n > 0 && dates[n - 1] == end {
                    n - 1
                } else {
                    n
                };
                proof {
                    if n > 0 {
                        lemma_walk_days(begin@, end@, (n - 1) as nat);
                        if walk(begin@, db) == end@ {
                            assert(dates@[n - 1]@ == end@);
                        }
                    }
                }
                assert(top == db);
                let mut i: usize = 0;
                while i < n
                    invariant
                        self.kind == HolidayKind::Span(begin, end),
                        i <= n,
                        n == dates@.len(),
                        top == db,
                        n == span_len(begin@, end@),
                        db == days_between(begin@, end@),
                        n <= top + 1,
                        forall|k: int| 0 <= k < n ==> (#[trigger] dates@[k])@ == walk(begin@, k as nat),
                        event_views(vec@) =~= holiday_events(self@, today@).take(i as int),
                    decreases n - i,
                {
                    let mut desc = self.desc.clone();
                    proof {
                        reveal_strlit(" (");
                    }
                    desc.append(" (");
                    push_decimal(&mut desc, (top - i) as u64);
                    desc.append(" days remaining)");
                    let ghost before_push = vec@;
                    let ev = Event { kind: EventKind::Holiday, date: dates[i], desc };
                    let ghost ev_view = ev@;
                    let ghost hs = holiday_events(self@, today@);
                    assert(self@.1 == HolidayKind::Span(begin, end));
                    assert(hs.len() == n);
                    assert(hs[i as int] == (
                        EventKind::Holiday,
                        walk(begin@, i as nat),
                        countdown(self.desc@, (db - i) as nat),
                    ));
                    assert(ev_view.2 =~= countdown(self.desc@, (db - i) as nat));
                    assert(ev_view == hs[i as int]);
                    vec.push(ev);
                    assert(event_views(vec@) =~= event_views(before_push).push(ev_view));
                    assert(event_views(vec@) =~= holiday_events(self@, today@).take(i + 1));
                    i += 1;
                }
                assert(holiday_events(self@, today@).take(n as int) =~= holiday_events(self@, today@));
            },
        }
        vec
    }
}

} // verus!
