//! The habit record: its parsed frequency, its dates, and its log of events,
//! and the evaluation of one day against the rolling window that ends there.

use vstd::prelude::*;
use crate::frequency::{parse_freq, spec_parse, ParseError, ParseErrorKind};

verus! {

/// A calendar date, as a day number: consecutive dates have consecutive numbers.
#[derive(Clone, Copy, Debug, PartialEq, Eq, Structural)]
pub struct Date {
    pub day: i32,
}

/// A leap year of the proleptic Gregorian calendar.
pub open spec fn is_leap_year(y: int) -> bool {
    (y % 4 == 0 && y % 100 != 0) || y % 400 == 0
}

pub open spec fn days_in_month(y: int, m: int) -> int {
    if m == 2 {
        if is_leap_year(y) {
            29
        } else {
            28
        }
    } else if m == 4 || m == 6 || m == 9 || m == 11 {
        30
    } else {
        31
    }
}

/// An existing date of the proleptic Gregorian calendar, within the years
/// that chrono's `NaiveDate` covers.
pub open spec fn is_calendar_date(y: int, m: int, d: int) -> bool {
    &&& -262143 <= y <= 262142
    &&& 1 <= m <= 12
    &&& 1 <= d <= days_in_month(y, m)
}

/// The number of a calendar date, with January 1 of year 1 as day 1.
pub uninterp spec fn ce_day_number(y: int, m: int, d: int) -> int;

/// Relies on chrono's `NaiveDate::from_ymd_opt`, which gives a date exactly
/// for the existing dates of its year range, and `Datelike::num_days_from_ce`,
/// which numbers that date counting January 1 of year 1 as day 1.
#[verifier::external_body]
fn ce_day(year: i32, month: u32, day: u32) -> (r: Option<i32>)
    ensures
        r is Some <==> is_calendar_date(year as int, month as int, day as int),
        r matches Some(n) ==> n == ce_day_number(year as int, month as int, day as int),
{
    match chrono::NaiveDate::from_ymd_opt(year, month, day) {
        Some(date) => Some(chrono::Datelike::num_days_from_ce(&date)),
        None => None,
    }
}

impl Date {
    /// The date of `year`, `month` and `day`, or `None` where no such date exists.
    pub fn from_ymd(year: i32, month: u32, day: u32) -> (r: Option<Date>)
        ensures
            r is Some <==> is_calendar_date(year as int, month as int, day as int),
            r matches Some(d) ==> d.day == ce_day_number(year as int, month as int, day as int),
    {
        match ce_day(year, month, day) {
            Some(n) => Some(Date { day: n }),
            None => None,
        }
    }
}

/// What was recorded for a habit on one date.
#[derive(Clone, Copy, Debug, PartialEq, Eq, Structural)]
pub enum Outcome {
    Done,
    Skipped,
    NoRecord,
}

/// One recorded outcome of a habit.
#[derive(Clone, Copy, Debug, PartialEq, Eq, Structural)]
pub struct Event {
    pub date: Date,
    pub outcome: Outcome,
}

/// The judgement of one reference date.
#[derive(Clone, Copy, Debug, PartialEq, Eq, Structural)]
pub enum WindowStatus {
    /// The habit is tracking-only (target zero): never scored.
    Untracked,
    /// The date lies before the first record or after the end date.
    Inactive,
    /// The window ending on the date holds at least `target` completions.
    Satisfied,
    /// The window ending on the date holds fewer than `target` completions.
    Broken,
}

/// An event was offered for a date before the latest recorded one.
#[derive(Clone, Copy, Debug, PartialEq, Eq, Structural)]
pub struct RecordError {
    pub latest: Date,
    pub offered: Date,
}

/// One tracked habit and its log of events.
#[derive(Clone, Debug)]
pub struct Habit {
    /// Optional section heading, for display only.
    pub heading: Option<String>,
    /// Name of the habit.
    pub name: String,
    /// The frequency specification as written.
    pub frequency: String,
    /// Completions required in every window.
    pub target: u32,
    /// Length of the window in days.
    pub interval: u32,
    /// Date of the first recorded event.
    pub first_record: Option<Date>,
    /// Last date on which the habit is scored.
    pub end_date: Option<Date>,
    /// The recorded events, one per date, in increasing order of date.
    pub events: Vec<Event>,
}

/// Dates strictly increase along `events`.
pub open spec fn events_ordered(events: Seq<Event>) -> bool {
    forall|i: int, j: int|
        0 <= i < j < events.len() ==> #[trigger] events[i].date.day < #[trigger] events[j].date.day
}

/// The number of `Done` events dated within `[lo, hi]`.
pub open spec fn done_in(events: Seq<Event>, lo: int, hi: int) -> nat
    decreases events.len(),
{
    if events.len() == 0 {
        0
    } else {
        done_in(events.drop_last(), lo, hi) + if events.last().outcome == Outcome::Done && lo
            <= events.last().date.day <= hi {
            1nat
        } else {
            0nat
        }
    }
}

impl Habit {
    /// The frequency fields agree with the specification, the events are
    /// ordered, and the first record is the date of the first event.
    pub open spec fn wf(&self) -> bool {
        &&& spec_parse(self.frequency@) == Ok::<(u32, u32), ParseErrorKind>(
            (self.target, self.interval),
        )
        &&& (self.interval == 0 ==> self.target == 0)
        &&& events_ordered(self.events@)
        &&& self.first_record == (if self.events@.len() == 0 {
            None::<Date>
        } else {
            Some(self.events@[0].date)
        })
    }

    /// The first day of the window that ends on day `d`, clipped at the first record.
    pub open spec fn window_start(&self, d: int) -> int {
        let lo = d - self.interval + 1;
        match self.first_record {
            Some(f) => if lo < f.day {
                f.day as int
            } else {
                lo
            },
            None => lo,
        }
    }

    /// Day `d` lies before the first record or after the end date.
    pub open spec fn is_inactive(&self, d: int) -> bool {
        match self.first_record {
            None => true,
            Some(f) => d < f.day || match self.end_date {
                Some(e) => d > e.day,
                None => false,
            },
        }
    }

    /// The judgement of day `d`.
    pub open spec fn status_at(&self, d: int) -> WindowStatus {
        if self.target == 0 {
            WindowStatus::Untracked
        } else if self.is_inactive(d) {
            WindowStatus::Inactive
        } else if done_in(self.events@, self.window_start(d), d) >= self.target {
            WindowStatus::Satisfied
        } else {
            WindowStatus::Broken
        }
    }

    /// A habit with no events, from a name, a frequency specification and an
    /// optional end date; fails where the specification does not parse.
    pub fn new(name: String, frequency: String, end_date: Option<Date>) -> (r: Result<
        Habit,
        ParseError,
    >)
        ensures
            match r {
                Ok(h) => {
                    &&& h.wf()
                    &&& spec_parse(frequency@) == Ok::<(u32, u32), ParseErrorKind>(
                        (h.target, h.interval),
                    )
                    &&& h.name == name
                    &&& h.frequency == frequency
                    &&& h.heading is None
                    &&& h.end_date == end_date
                    &&& h.events@.len() == 0
                },
                Err(e) => spec_parse(frequency@) == Err::<(u32, u32), ParseErrorKind>(e.kind)
                    && e.raw@ == frequency@,
            },
    {
        let (target, interval) = match parse_freq(frequency.as_str()) {
            Ok(p) => p,
            Err(e) => return Err(e),
        };
        Ok(Habit {
            heading: None,
            name,
            frequency,
            target,
            interval,
            first_record: None,
            end_date,
            events: Vec::new(),
        })
    }

    /// Records `outcome` for `date`. A date after the latest recorded one is
    /// appended; the latest date itself has its outcome replaced; an earlier
    /// date is refused and the habit left as it was.
    pub fn record(&mut self, date: Date, outcome: Outcome) -> (r: Result<(), RecordError>)
        requires
            old(self).wf(),
        ensures
            final(self).wf(),
            final(self).heading == old(self).heading,
            final(self).name == old(self).name,
            final(self).frequency == old(self).frequency,
            final(self).end_date == old(self).end_date,
            final(self).target == old(self).target,
            final(self).interval == old(self).interval,
            ({
                let ev = Event { date, outcome };
                let old_events = old(self).events@;
                if old_events.len() == 0 || old_events.last().date.day < date.day {
                    r is Ok && final(self).events@ == old_events.push(ev)
                } else if old_events.last().date.day == date.day {
                    r is Ok && final(self).events@ == old_events.drop_last().push(ev)
                } else {
                    r == Err::<(), RecordError>(
                        RecordError { latest: old_events.last().date, offered: date },
                    ) && final(self).events@ == old_events && final(self).first_record == old(
                        self,
                    ).first_record
                }
            }),
    {
        let n = self.events.len();
        let ev = Event { date, outcome };
        if n > 0 {
            let latest = self.events[n - 1].date;
            if date.day < latest.day {
                return Err(RecordError { latest, offered: date });
            }
            if date.day == latest.day {
                self.events.pop();
                self.events.push(ev);
                return Ok(());
            }
        }
        self.events.push(ev);
        if n == 0 {
            self.first_record = Some(date);
        }
        Ok(())
    }

    /// Judges `date`: untracked for a target of zero, inactive outside the
    /// habit's active dates, and otherwise satisfied exactly when the window
    /// of `interval` days ending on `date`, clipped at the first record,
    /// holds at least `target` completions.
    pub fn evaluate(&self, date: Date) -> (r: WindowStatus)
        requires
            self.wf(),
        ensures
            r == self.status_at(date.day as int),
    {
        if self.target == 0 {
            return WindowStatus::Untracked;
        }
        let first = match self.first_record {
            None => return WindowStatus::Inactive,
            Some(f) => f,
        };
        if date.day < first.day {
            return WindowStatus::Inactive;
        }
        if let Some(e) = self.end_date {
            if date.day > e.day {
                return WindowStatus::Inactive;
            }
        }
        let lo0: i64 = date.day as i64 - self.interval as i64 + 1;
        let lo: i64 = if lo0 < first.day as i64 {
            first.day as i64
        } else {
            lo0
        };
        let count = count_done(&self.events, lo, date.day as i64);
        if count >= self.target as u64 {
            WindowStatus::Satisfied
        } else {
            WindowStatus::Broken
        }
    }
}


/// The number of `Done` events of `events` dated within `[lo, hi]`.
fn count_done(events: &Vec<Event>, lo: i64, hi: i64) -> (r: u64)
    ensures
        r == done_in(events@, lo as int, hi as int),
{
    let mut count: u64 = 0;
    let mut i: usize = 0;
    while i < events.len()
        invariant
            i <= events@.len(),
            count <= i,
            count == done_in(events@.take(i as int), lo as int, hi as int),
        decreases events@.len() - i,
    {
        assert(events@.take(i + 1).drop_last() == events@.take(i as int));
        let e = events[i];
        if e.outcome == Outcome::Done && lo <= e.date.day as i64 && e.date.day as i64 <= hi {
            count = count + 1;
        }
        i = i + 1;
    }
    assert(events@.take(i as int) == events@);
    count
}

} // verus!
