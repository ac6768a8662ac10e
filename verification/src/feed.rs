use crate::network::{Colour, Timestamp};
use chrono::{Datelike, NaiveDate};
use vstd::prelude::*;

verus! {

/// A calendar day, counted in days of the proleptic Gregorian calendar: day 1
/// is the first of January of the year 1.
#[derive(Clone, Copy, PartialEq, Eq, Structural, Debug)]
pub struct ServiceDate {
    pub days: i32,
}

/// The way a trip runs along its line.
#[derive(Clone, Copy, PartialEq, Eq, Structural, Debug)]
pub enum Direction {
    Outbound,
    Inbound,
}

/// A stop as the feed gives it.
pub struct FeedStop {
    pub id: String,
    pub name: String,
}

/// One call of a trip at a stop.
#[derive(Clone, Copy, PartialEq, Eq, Structural, Debug)]
pub struct FeedStopTime {
    /// The stop's position among the feed's stops.
    pub stop: usize,
    pub arrival_time: Timestamp,
    pub departure_time: Timestamp,
}

/// A single vehicle run.
pub struct FeedTrip {
    pub id: String,
    /// The feed's name of the line that the trip belongs to.
    pub route_id: String,
    pub service_id: String,
    /// Absent in some feeds; the trip is then taken to run outbound.
    pub direction: Option<Direction>,
    pub stop_times: Vec<FeedStopTime>,
}

/// A line as the feed gives it.
pub struct FeedLine {
    pub id: String,
    pub short_name: Option<String>,
    pub long_name: Option<String>,
    pub colour: Colour,
}

/// The days of the week on which a service runs, and the days between which
/// it does.
pub struct Calendar {
    pub service_id: String,
    pub monday: bool,
    pub tuesday: bool,
    pub wednesday: bool,
    pub thursday: bool,
    pub friday: bool,
    pub saturday: bool,
    pub sunday: bool,
    pub start_date: ServiceDate,
    pub end_date: ServiceDate,
}

/// One day that the feed lists for a service apart from its weekly plan.
pub struct CalendarDate {
    pub service_id: String,
    pub date: ServiceDate,
}

/// A timetable as it was read: stops, lines, trips and the days on which the
/// trips run.
pub struct Feed {
    pub stops: Vec<FeedStop>,
    pub lines: Vec<FeedLine>,
    pub trips: Vec<FeedTrip>,
    pub calendars: Vec<Calendar>,
    pub calendar_dates: Vec<CalendarDate>,
    pub has_shapes: bool,
}

/// The day of the week of a calendar day, counted from Monday as 0, as
/// `chrono` gives it; `None` for a day outside the range of `chrono`'s dates.
pub uninterp spec fn weekday_number(days: i32) -> Option<u8>;

/// `chrono::NaiveDate::from_num_days_from_ce_opt`, then `Datelike::weekday`
/// and `Weekday::num_days_from_monday`: the day of the week of a day, Monday
/// being 0 and Sunday 6, and nothing for a day that `chrono` cannot hold.
#[verifier::external_body]
fn weekday_of(days: i32) -> (w: Option<u8>)
    ensures
        w == weekday_number(days),
        w matches Some(n) ==> n < 7,
{
    NaiveDate::from_num_days_from_ce_opt(days).map(|d| d.weekday().num_days_from_monday() as u8)
}

impl Calendar {
    /// Whether the weekly plan has the service run on a day of the week,
    /// Monday being 0.
    pub open spec fn spec_valid_weekday(&self, weekday: u8) -> bool {
        if weekday == 0 {
            self.monday
        } else if weekday == 1 {
            self.tuesday
        } else if weekday == 2 {
            self.wednesday
        } else if weekday == 3 {
            self.thursday
        } else if weekday == 4 {
            self.friday
        } else if weekday == 5 {
            self.saturday
        } else {
            weekday == 6 && self.sunday
        }
    }

    #[verifier::when_used_as_spec(spec_valid_weekday)]
    pub fn valid_weekday(&self, weekday: u8) -> (r: bool)
        ensures
            r == self.spec_valid_weekday(weekday),
    {
        match weekday {
            0 => self.monday,
            1 => self.tuesday,
            2 => self.wednesday,
            3 => self.thursday,
            4 => self.friday,
            5 => self.saturday,
            6 => self.sunday,
            _ => false,
        }
    }

    /// Whether the service runs on a day, given the day's day of the week:
    /// the weekly plan has it, and the day is not outside the plan's validity.
    pub open spec fn spec_covers(&self, date: ServiceDate, weekday: Option<u8>) -> bool {
        &&& weekday matches Some(w)
        &&& self.spec_valid_weekday(w)
        &&& self.start_date.days <= date.days <= self.end_date.days
    }

    #[verifier::when_used_as_spec(spec_covers)]
    pub fn covers(&self, date: ServiceDate, weekday: Option<u8>) -> (r: bool)
        ensures
            r == self.spec_covers(date, weekday),
    {
        match weekday {
            Some(w) => self.valid_weekday(w) && self.start_date.days <= date.days && date.days
                <= self.end_date.days,
            None => false,
        }
    }
}

/// The first calendar from position `from` on that is for the service `id`.
pub open spec fn find_calendar(calendars: Seq<Calendar>, id: Seq<char>, from: int) -> Option<int>
    decreases calendars.len() - from,
{
    if from < 0 || from >= calendars.len() {
        None
    } else if calendars[from].service_id@ == id {
        Some(from)
    } else {
        find_calendar(calendars, id, from + 1)
    }
}

/// The feed lists some day for the service `id`.
pub open spec fn has_dates(dates: Seq<CalendarDate>, id: Seq<char>) -> bool {
    exists|k: int| 0 <= k < dates.len() && (#[trigger] dates[k]).service_id@ == id
}

/// The feed lists the day `date` for the service `id`.
pub open spec fn date_listed(dates: Seq<CalendarDate>, id: Seq<char>, date: ServiceDate) -> bool {
    exists|k: int|
        0 <= k < dates.len() && (#[trigger] dates[k]).service_id@ == id && dates[k].date == date
}

impl Feed {
    /// Every call of every trip names a stop of the feed, and no trip has
    /// more calls than a stop order can count.
    pub open spec fn wf(&self) -> bool {
        &&& forall|t: int, j: int|
            0 <= t < self.trips@.len() && 0 <= j < self.trips@[t].stop_times@.len() ==> (
            #[trigger] self.trips@[t].stop_times@[j]).stop < self.stops@.len()
        &&& forall|t: int|
            0 <= t < self.trips@.len() ==> (#[trigger] self.trips@[t]).stop_times@.len()
                <= u32::MAX
    }

    /// Whether a service runs on a day: by its weekly plan where it has one,
    /// else by the days listed for it. `None` for a service of which the feed
    /// says nothing.
    pub open spec fn service_runs(&self, id: Seq<char>, date: ServiceDate) -> Option<bool> {
        match find_calendar(self.calendars@, id, 0) {
            Some(c) => Some(self.calendars@[c].spec_covers(date, weekday_number(date.days))),
            None => if has_dates(self.calendar_dates@, id) {
                Some(date_listed(self.calendar_dates@, id, date))
            } else {
                None
            },
        }
    }

    /// Whether trip `t` runs on a day.
    pub open spec fn trip_runs(&self, t: int, date: ServiceDate) -> Option<bool> {
        self.service_runs(self.trips@[t].service_id@, date)
    }
}

/// Whether a service runs on a day, given the day's day of the week; `None`
/// for a service of which the feed says nothing.
pub fn service_runs_on(feed: &Feed, service_id: &String, date: ServiceDate, weekday: Option<u8>) -> (r:
    Option<bool>)
    ensures
        weekday == weekday_number(date.days) ==> r == feed.service_runs(service_id@, date),
{
    let mut c: usize = 0;
    while c < feed.calendars.len()
        invariant
            c <= feed.calendars@.len(),
            find_calendar(feed.calendars@, service_id@, 0) == find_calendar(
                feed.calendars@,
                service_id@,
                c as int,
            ),
        decreases feed.calendars@.len() - c,
    {
        if feed.calendars[c].service_id == *service_id {
            return Some(feed.calendars[c].covers(date, weekday));
        }
        c += 1;
    }
    let mut found = false;
    let mut k: usize = 0;
    while k < feed.calendar_dates.len()
        invariant
            find_calendar(feed.calendars@, service_id@, 0) is None,
            k <= feed.calendar_dates@.len(),
            found == has_dates(feed.calendar_dates@.subrange(0, k as int), service_id@),
            !date_listed(feed.calendar_dates@.subrange(0, k as int), service_id@, date),
        decreases feed.calendar_dates@.len() - k,
    {
        let ghost before = feed.calendar_dates@.subrange(0, k as int);
        let ghost after = feed.calendar_dates@.subrange(0, k + 1);
        let entry = &feed.calendar_dates[k];
        if entry.service_id == *service_id {
            if entry.date.days == date.days {
                assert(feed.calendar_dates@[k as int].service_id@ == service_id@
                    && feed.calendar_dates@[k as int].date == date);
                return Some(true);
            }
            found = true;
            assert(after[k as int].service_id@ == service_id@);
        }
        proof {
            assert forall|j: int| 0 <= j < k implies before[j] == after[j] by {}
            if has_dates(before, service_id@) {
                let j = choose|j: int|
                    0 <= j < before.len() && (#[trigger] before[j]).service_id@ == service_id@;
                assert(after[j].service_id@ == service_id@);
            }
            if has_dates(after, service_id@) && !found {
                let j = choose|j: int|
                    0 <= j < after.len() && (#[trigger] after[j]).service_id@ == service_id@;
                assert(before[j].service_id@ == service_id@);
            }
            if date_listed(after, service_id@, date) {
                let j = choose|j: int|
                    0 <= j < after.len() && (#[trigger] after[j]).service_id@ == service_id@
                        && after[j].date == date;
                assert(before[j].service_id@ == service_id@);
            }
        }
        k += 1;
    }
    assert(feed.calendar_dates@.subrange(0, k as int) =~= feed.calendar_dates@);
    if found {
        Some(false)
    } else {
        None
    }
}

/// Whether a trip of the feed runs on a day; `None` where the feed says
/// nothing of the trip's service.
pub fn does_trip_run(feed: &Feed, trip: &FeedTrip, date: ServiceDate) -> (r: Option<bool>)
    ensures
        r == feed.service_runs(trip.service_id@, date),
{
    let weekday = weekday_of(date.days);
    service_runs_on(feed, &trip.service_id, date, weekday)
}

impl Feed {
    /// The direction of trip `t`: outbound where the feed gives none.
    pub open spec fn trip_direction(&self, t: int) -> Direction {
        match self.trips@[t].direction {
            Some(d) => d,
            None => Direction::Outbound,
        }
    }

    /// The stops at which trip `t` calls, in order.
    pub open spec fn trip_stops(&self, t: int) -> Seq<usize> {
        Seq::new(self.trips@[t].stop_times@.len(), |i: int| self.trips@[t].stop_times@[i].stop)
    }

    /// Trips `a` and `b` belong to one route: they run on the same line in the
    /// same direction and call at the same stops in the same order.
    pub open spec fn same_route(&self, a: int, b: int) -> bool {
        &&& self.trips@[a].route_id@ == self.trips@[b].route_id@
        &&& self.trip_direction(a) == self.trip_direction(b)
        &&& self.trip_stops(a) == self.trip_stops(b)
    }

    /// Trip `t` goes into the network for the day `date`: it runs on that day
    /// and calls at a stop.
    pub open spec fn retained(&self, t: int, date: ServiceDate) -> bool {
        &&& 0 <= t < self.trips@.len()
        &&& self.trip_runs(t, date) == Some(true)
        &&& self.trips@[t].stop_times@.len() > 0
    }
}

} // verus!
