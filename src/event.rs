//! Dated events, the capability of records to produce them, and the choice
//! of the soonest events of a kind.

use vstd::prelude::*;
use crate::date::{before, clock_year, valid_ymd, Fixed};

verus! {

#[derive(Debug, Clone, Copy, PartialEq, Eq, Structural)]
pub enum EventKind {
    Birthday,
    SaintDay,
    Wedding,
    Holiday,
    Special,
}

/// The kinds in the order in which they are reported.
pub const KIND_LIST: [EventKind; 5] = [
    EventKind::Birthday,
    EventKind::SaintDay,
    EventKind::Wedding,
    EventKind::Holiday,
    EventKind::Special,
];

/// The name under which events of a kind are reported.
pub open spec fn kind_label(k: EventKind) -> Seq<char> {
    match k {
        EventKind::Birthday => "birthday"@,
        EventKind::SaintDay => "saint day"@,
        EventKind::Wedding => "wedding anniversary"@,
        EventKind::Holiday => "holiday"@,
        EventKind::Special => "special"@,
    }
}

impl EventKind {
    /// The name under which events of this kind are reported.
    pub fn label(&self) -> (r: &'static str)
        ensures
            r@ == kind_label(*self),
    {
        match self {
            EventKind::Birthday => "birthday",
            EventKind::SaintDay => "saint day",
            EventKind::Wedding => "wedding anniversary",
            EventKind::Holiday => "holiday",
            EventKind::Special => "special",
        }
    }
}

#[derive(Debug)]
pub struct Event {
    pub kind: EventKind,
    pub date: Fixed,
    pub desc: String,
}

/// Kind, date as (year, month, day), and description.
pub type EventView = (EventKind, (int, int, int), Seq<char>);

impl View for Event {
    type V = EventView;

    open spec fn view(&self) -> EventView {
        (self.kind, self.date@, self.desc@)
    }
}

pub open spec fn event_views(v: Seq<Event>) -> Seq<EventView> {
    v.map_values(|e: Event| e@)
}

pub open spec fn ref_views(v: Seq<&Event>) -> Seq<EventView> {
    v.map_values(|e: &Event| e@)
}

/// A record that expands into dated events.
pub trait IntoEvents: Sized {
    /// The events that the record expands into, seen from `today`.
    spec fn expected(&self, today: (int, int, int)) -> Seq<EventView>;

    /// The events, with `today` as the current date.
    fn into_events_at(self, today: Fixed) -> (r: Vec<Event>)
        requires
            today.year < i32::MAX,
        ensures
            event_views(r@) == self.expected(today@),
    ;

    /// The events, as of the current date.
    fn into_events(self) -> (r: Vec<Event>)
        ensures
            exists|today: Fixed|
                valid_ymd(today@) && clock_year(today.year as int) && event_views(r@)
                    == self.expected(#[trigger] today@),
    {
        let today = Fixed::now();
        self.into_events_at(today)
    }
}

/// An event of `kind` that is not before `today`.
pub open spec fn qualifies(e: EventView, kind: EventKind, today: (int, int, int)) -> bool {
    e.0 == kind && !before(e.1, today)
}

/// The earliest date among the events that qualify.
pub open spec fn earliest(evs: Seq<EventView>, kind: EventKind, today: (int, int, int)) -> Option<
    (int, int, int),
>
    decreases evs.len(),
{
    if evs.len() == 0 {
        None
    } else {
        let prev = earliest(evs.drop_last(), kind, today);
        let e = evs.last();
        if qualifies(e, kind, today) {
            match prev {
                None => Some(e.1),
                Some(d) => if before(e.1, d) {
                    Some(e.1)
                } else {
                    Some(d)
                },
            }
        } else {
            prev
        }
    }
}

/// The events that qualify and fall on `d`, in their order.
pub open spec fn on_date(
    evs: Seq<EventView>,
    kind: EventKind,
    today: (int, int, int),
    d: (int, int, int),
) -> Seq<EventView>
    decreases evs.len(),
{
    if evs.len() == 0 {
        Seq::empty()
    } else {
        let prev = on_date(evs.drop_last(), kind, today, d);
        let e = evs.last();
        if qualifies(e, kind, today) && e.1 == d {
            prev.push(e)
        } else {
            prev
        }
    }
}

/// All events of `kind` on the earliest date not before `today`.
pub open spec fn selected(evs: Seq<EventView>, kind: EventKind, today: (int, int, int)) -> Seq<
    EventView,
> {
    match earliest(evs, kind, today) {
        None => Seq::empty(),
        Some(d) => on_date(evs, kind, today, d),
    }
}

proof fn lemma_on_date_before_earliest(
    evs: Seq<EventView>,
    kind: EventKind,
    today: (int, int, int),
    d: (int, int, int),
)
    requires
        match earliest(evs, kind, today) {
            None => true,
            Some(m) => before(d, m),
        },
    ensures
        on_date(evs, kind, today, d) == Seq::<EventView>::empty(),
    decreases evs.len(),
{
    if evs.len() > 0 {
        lemma_on_date_before_earliest(evs.drop_last(), kind, today, d);
    }
}

proof fn lemma_on_date_earliest(evs: Seq<EventView>, kind: EventKind, today: (int, int, int))
    requires
        earliest(evs, kind, today) is Some,
    ensures
        on_date(evs, kind, today, earliest(evs, kind, today)->0).len() > 0,
    decreases evs.len(),
{
    let m = earliest(evs, kind, today)->0;
    let prev = earliest(evs.drop_last(), kind, today);
    if prev is Some && prev->0 == m {
        lemma_on_date_earliest(evs.drop_last(), kind, today);
    }
    lemma_on_date_all(evs, kind, today, m);
}

proof fn lemma_on_date_all(
    evs: Seq<EventView>,
    kind: EventKind,
    today: (int, int, int),
    d: (int, int, int),
)
    ensures
        forall|i: int|
            0 <= i < on_date(evs, kind, today, d).len() ==> (#[trigger] on_date(
                evs,
                kind,
                today,
                d,
            )[i]).1 == d,
        on_date(evs, kind, today, d).len() <= evs.len(),
    decreases evs.len(),
{
    if evs.len() > 0 {
        lemma_on_date_all(evs.drop_last(), kind, today, d);
    }
}

/// The events of `kind` on the earliest date not before `today`, in their order.
pub fn get_next_at<'a>(events: &'a Vec<Event>, kind: EventKind, today: Fixed) -> (r: Vec<&'a Event>)
    ensures
        ref_views(r@) == selected(event_views(events@), kind, today@),
{
    let ghost evs = event_views(events@);
    let mut next: Vec<&'a Event> = Vec::new();
    let mut i: usize = 0;
    assert(evs.take(0) =~= Seq::<EventView>::empty());
    while i < events.len()
        invariant
            i <= events.len(),
            evs == event_views(events@),
            ref_views(next@) == selected(evs.take(i as int), kind, today@),
            next@.len() > 0 <==> earliest(evs.take(i as int), kind, today@) is Some,
            next@.len() > 0 ==> next@[0].date@ == earliest(evs.take(i as int), kind, today@)->0,
        decreases events.len() - i,
    {
        let e = &events[i];
        let ghost pre = evs.take(i as int);
        let ghost post = evs.take(i + 1);
        assert(post.drop_last() =~= pre);
        assert(post.last() == e@);
        proof {
            lemma_on_date_all(pre, kind, today@, e.date@);
            if earliest(pre, kind, today@) is Some {
                lemma_on_date_all(pre, kind, today@, earliest(pre, kind, today@)->0);
            }
        }
        if e.kind == kind && !e.date.precedes(&today) {
            if next.len() == 0 {
                proof {
                    lemma_on_date_before_earliest(pre, kind, today@, e.date@);
                }
                next.push(e);
                assert(ref_views(next@) =~= seq![e@]);
            } else {
                let first = next[0];
                if e.date.precedes(&first.date) {
                    proof {
                        lemma_on_date_before_earliest(pre, kind, today@, e.date@);
                    }
                    next = Vec::new();
                    next.push(e);
                    assert(ref_views(next@) =~= seq![e@]);
                } else if e.date == first.date {
                    let ghost old_next = next@;
                    next.push(e);
                    assert(ref_views(next@) =~= ref_views(old_next).push(e@));
                } else {
                }
            }
        } else {
        }
        proof {
            let m = earliest(post, kind, today@);
            if m is Some {
                lemma_on_date_earliest(post, kind, today@);
            }
        }
        i += 1;
    }
    assert(evs.take(events.len() as int) =~= evs);
    next
}

/// The events of `kind` on the earliest date not before today, in their order.
pub fn get_next<'a>(events: &'a Vec<Event>, kind: EventKind) -> (r: Vec<&'a Event>)
    ensures
        exists|today: Fixed|
            valid_ymd(today@) && clock_year(today.year as int) && ref_views(r@) == selected(
                event_views(events@),
                kind,
                #[trigger] today@,
            ),
{
    let today = Fixed::now();
    get_next_at(events, kind, today)
}

} // verus!
