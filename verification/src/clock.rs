//! The simulation clock: the time zone that delivery hours, stages and the
//! weather are read in. The wire stays in UTC; everything below it reasons in
//! local civil time, so that a stage set for one o'clock runs at one o'clock
//! in the configured zone.

use crate::proto_conv::{MAX_SECONDS, MIN_SECONDS};
use crate::time::Timestamp;
use vstd::prelude::*;

verus! {

/// A zone of this name is in the time zone database.
pub uninterp spec fn known_zone(zone: Seq<char>) -> bool;

/// The hour, minute and second that clocks in the zone show at an instant.
pub uninterp spec fn time_in(zone: Seq<char>, secs: int) -> (int, int, int);

/// The year, month, day and day of the year that calendars in the zone show
/// at an instant.
pub uninterp spec fn date_in(zone: Seq<char>, secs: int) -> (int, int, int, int);

/// `chrono_tz`'s `Tz::from_str`: whether the database has a zone of this
/// name. It has Europe/Berlin, and UTC.
#[verifier::external_body]
fn outside_zone(zone: &str) -> (r: bool)
    ensures
        r == known_zone(zone@),
        zone@ == "Europe/Berlin"@ ==> r,
        zone@ == "UTC"@ ==> r,
{
    zone.parse::<chrono_tz::Tz>().is_ok()
}

/// `chrono`'s `DateTime::with_timezone` with a zone of `chrono_tz`, and the
/// hour, minute and second of the result. They depend on the zone's rules in
/// the database, and are on a clock face.
#[verifier::external_body]
fn outside_time(zone: &str, secs: i64) -> (r: (u32, u32, u32))
    requires
        known_zone(zone@),
        MIN_SECONDS + 86_400 <= secs <= MAX_SECONDS - 86_400,
    ensures
        (r.0 as int, r.1 as int, r.2 as int) == time_in(zone@, secs as int),
        r.0 < 24,
        r.1 < 60,
        r.2 < 60,
{
    let zone = zone.parse::<chrono_tz::Tz>().unwrap();
    let local = chrono::DateTime::from_timestamp(secs, 0).unwrap().with_timezone(&zone);
    (
        chrono::Timelike::hour(&local),
        chrono::Timelike::minute(&local),
        chrono::Timelike::second(&local),
    )
}

/// `chrono`'s `DateTime::with_timezone` with a zone of `chrono_tz`, and the
/// `date_naive` of the result. It depends on the zone's rules in the
/// database, and is on a calendar.
#[verifier::external_body]
fn outside_date(zone: &str, secs: i64) -> (r: (i32, u32, u32, u32))
    requires
        known_zone(zone@),
        MIN_SECONDS + 86_400 <= secs <= MAX_SECONDS - 86_400,
    ensures
        (r.0 as int, r.1 as int, r.2 as int, r.3 as int) == date_in(zone@, secs as int),
        1 <= r.1 <= 12,
        1 <= r.2 <= 31,
        1 <= r.3 <= 366,
{
    let zone = zone.parse::<chrono_tz::Tz>().unwrap();
    let local = chrono::DateTime::from_timestamp(secs, 0).unwrap().with_timezone(&zone);
    let date = local.date_naive();
    (
        chrono::Datelike::year(&date),
        chrono::Datelike::month(&date),
        chrono::Datelike::day(&date),
        chrono::Datelike::ordinal(&date),
    )
}

/// A day on a calendar.
#[derive(Clone, Copy, Debug, PartialEq, Eq, Structural)]
pub struct CivilDate {
    pub year: i32,
    pub month: u32,
    pub day: u32,
}

/// A clock that runs in a zone of the time zone database.
#[derive(Debug)]
pub struct Clock {
    zone: String,
}

impl View for Clock {
    type V = Seq<char>;

    closed spec fn view(&self) -> Seq<char> {
        self.zone@
    }
}

/// The second of the day that a time stands for.
pub open spec fn second_of_day(t: (int, int, int)) -> int {
    t.0 * 3600 + t.1 * 60 + t.2
}

impl Clock {
    #[verifier::type_invariant]
    spec fn in_database(&self) -> bool {
        known_zone(self.zone@)
    }

    /// A clock in this zone; `None` where there is no such zone.
    pub fn new(zone: &str) -> (r: Option<Self>)
        ensures
            r is Some <==> known_zone(zone@),
            r matches Some(c) ==> c@ == zone@,
    {
        if outside_zone(zone) {
            Some(Clock { zone: zone.to_owned() })
        } else {
            None
        }
    }

    /// The local hour of day at an instant, to the second: the number of
    /// seconds since local midnight, by the clock face.
    pub fn local_hour(&self, utc: Timestamp) -> (r: u32)
        requires
            MIN_SECONDS + 86_400 <= utc.secs <= MAX_SECONDS - 86_400,
        ensures
            r == second_of_day(time_in(self@, utc.secs as int)),
            r < 86_400,
    {
        proof {
            use_type_invariant(self);
        }
        let (hour, minute, second) = outside_time(self.zone.as_str(), utc.secs);
        hour * 3600 + minute * 60 + second
    }

    /// The local calendar date at an instant. It can differ from the date in
    /// UTC.
    pub fn local_date(&self, utc: Timestamp) -> (r: CivilDate)
        requires
            MIN_SECONDS + 86_400 <= utc.secs <= MAX_SECONDS - 86_400,
        ensures
            ({
                let d = date_in(self@, utc.secs as int);
                (r.year as int, r.month as int, r.day as int) == (d.0, d.1, d.2)
            }),
            1 <= r.month <= 12,
            1 <= r.day <= 31,
    {
        proof {
            use_type_invariant(self);
        }
        let (year, month, day, _) = outside_date(self.zone.as_str(), utc.secs);
        CivilDate { year, month, day }
    }

    /// The day of the year on the local calendar, from 1 on.
    pub fn local_day_of_year(&self, utc: Timestamp) -> (r: u32)
        requires
            MIN_SECONDS + 86_400 <= utc.secs <= MAX_SECONDS - 86_400,
        ensures
            r == date_in(self@, utc.secs as int).3,
            1 <= r <= 366,
    {
        proof {
            use_type_invariant(self);
        }
        let (_, _, _, ordinal) = outside_date(self.zone.as_str(), utc.secs);
        ordinal
    }

    /// The zone's name in the database, such as "Europe/Berlin".
    pub fn tz_name(&self) -> (r: &str)
        ensures
            r@ == self@,
    {
        self.zone.as_str()
    }
}

impl Clone for Clock {
    fn clone(&self) -> (r: Self)
        ensures
            r@ == self@,
    {
        proof {
            use_type_invariant(self);
        }
        Clock { zone: self.zone.clone() }
    }
}

impl Default for Clock {
    /// A clock in Europe/Berlin.
    fn default() -> (r: Self)
        ensures
            r@ == "Europe/Berlin"@,
    {
        let _ = outside_zone("Europe/Berlin");
        Clock { zone: "Europe/Berlin".to_owned() }
    }
}

} // verus!
