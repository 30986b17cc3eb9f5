//! Streaks and aggregate statistics of a habit over a range of dates.

use vstd::prelude::*;
use crate::habit::{done_in, Date, Event, Habit, Outcome, WindowStatus};

verus! {

/// The running figures of a walk over judged days.
pub struct Tally {
    pub satisfied: nat,
    pub broken: nat,
    pub current: nat,
    pub longest: nat,
}

pub open spec fn empty_tally() -> Tally {
    Tally { satisfied: 0, broken: 0, current: 0, longest: 0 }
}

/// One day further: a satisfied day extends the streak, a broken day ends
/// it, and untracked or inactive days leave everything as it was.
pub open spec fn step(t: Tally, s: WindowStatus) -> Tally {
    match s {
        WindowStatus::Satisfied => Tally {
            satisfied: t.satisfied + 1,
            broken: t.broken,
            current: t.current + 1,
            longest: if t.current + 1 > t.longest {
                t.current + 1
            } else {
                t.longest
            },
        },
        WindowStatus::Broken => Tally {
            satisfied: t.satisfied,
            broken: t.broken + 1,
            current: 0,
            longest: t.longest,
        },
        _ => t,
    }
}

/// The figures after walking the `n` days that begin with day `start`.
pub open spec fn tally(h: Habit, start: int, n: nat) -> Tally
    decreases n,
{
    if n == 0 {
        empty_tally()
    } else {
        step(tally(h, start, (n - 1) as nat), h.status_at(start + n - 1))
    }
}

/// The first day that a query from day `from` walks: the later of `from`
/// and the first record.
pub open spec fn scan_start(h: Habit, from: int) -> int {
    match h.first_record {
        Some(f) => if from < f.day {
            f.day as int
        } else {
            from
        },
        None => from,
    }
}

/// The number of days that a query over `[from, to]` walks.
pub open spec fn scan_len(h: Habit, from: int, to: int) -> nat {
    let s = scan_start(h, from);
    if s <= to {
        (to - s + 1) as nat
    } else {
        0
    }
}

/// The current and longest streak over a range of dates.
#[derive(Clone, Copy, Debug, PartialEq, Eq, Structural)]
pub struct Streaks {
    pub current: u64,
    pub longest: u64,
}

/// Aggregate figures of one habit, or of several combined.
#[derive(Clone, Copy, Debug, PartialEq, Eq, Structural)]
pub struct Stats {
    pub total_days: u64,
    pub satisfied_days: u64,
    pub broken_days: u64,
    pub current_streak: u64,
    pub longest_streak: u64,
}

/// A query whose last date precedes its first.
#[derive(Clone, Copy, Debug, PartialEq, Eq, Structural)]
pub struct RangeError {
    pub from: Date,
    pub to: Date,
}

impl Stats {
    /// The figures of `self` are those of `t` over `n` days.
    pub open spec fn agrees(&self, t: Tally, n: nat) -> bool {
        &&& self.total_days == n
        &&& self.satisfied_days == t.satisfied
        &&& self.broken_days == t.broken
        &&& self.current_streak == t.current
        &&& self.longest_streak == t.longest
    }
}

/// The sum of `f` over `s`.
pub open spec fn sum_of(s: Seq<Stats>, f: spec_fn(Stats) -> nat) -> nat
    decreases s.len(),
{
    if s.len() == 0 {
        0
    } else {
        sum_of(s.drop_last(), f) + f(s.last())
    }
}

/// The largest value of `f` over `s`, or zero for an empty `s`.
pub open spec fn max_of(s: Seq<Stats>, f: spec_fn(Stats) -> nat) -> nat
    decreases s.len(),
{
    if s.len() == 0 {
        0
    } else {
        let m = max_of(s.drop_last(), f);
        if f(s.last()) > m {
            f(s.last())
        } else {
            m
        }
    }
}

pub open spec fn total_of(x: Stats) -> nat {
    x.total_days as nat
}

pub open spec fn satisfied_of(x: Stats) -> nat {
    x.satisfied_days as nat
}

pub open spec fn broken_of(x: Stats) -> nat {
    x.broken_days as nat
}

pub open spec fn current_of(x: Stats) -> nat {
    x.current_streak as nat
}

pub open spec fn longest_of(x: Stats) -> nat {
    x.longest_streak as nat
}

proof fn lemma_sum_prefix(s: Seq<Stats>, f: spec_fn(Stats) -> nat, i: int)
    requires
        0 <= i <= s.len(),
    ensures
        sum_of(s.take(i), f) <= sum_of(s, f),
    decreases s.len(),
{
    if i < s.len() {
        assert(s.drop_last().take(i) == s.take(i));
        lemma_sum_prefix(s.drop_last(), f, i);
    } else {
        assert(s.take(i) == s);
    }
}

impl Stats {
    /// The completion rate as a fraction `(numerator, denominator)`:
    /// satisfied days over scored (satisfied or broken) days, and exactly
    /// `0 / 1` when no day was scored.
    pub fn completion_rate(&self) -> (r: (u64, u64))
        requires
            self.satisfied_days + self.broken_days <= u64::MAX,
        ensures
            r.1 > 0,
            self.satisfied_days + self.broken_days == 0 ==> r == (0u64, 1u64),
            self.satisfied_days + self.broken_days > 0 ==> r == (
                self.satisfied_days,
                (self.satisfied_days + self.broken_days) as u64,
            ),
    {
        let scored = self.satisfied_days + self.broken_days;
        if scored == 0 {
            (0, 1)
        } else {
            (self.satisfied_days, scored)
        }
    }
}

/// The figures of several habits together: day counts are summed, so that
/// the combined rate weighs each habit by its scored days; the streaks are
/// the longest of any habit.
pub fn overall(all: &Vec<Stats>) -> (r: Stats)
    requires
        sum_of(all@, |x: Stats| total_of(x)) <= u64::MAX,
        sum_of(all@, |x: Stats| satisfied_of(x)) <= u64::MAX,
        sum_of(all@, |x: Stats| broken_of(x)) <= u64::MAX,
    ensures
        r.total_days == sum_of(all@, |x: Stats| total_of(x)),
        r.satisfied_days == sum_of(all@, |x: Stats| satisfied_of(x)),
        r.broken_days == sum_of(all@, |x: Stats| broken_of(x)),
        r.current_streak == max_of(all@, |x: Stats| current_of(x)),
        r.longest_streak == max_of(all@, |x: Stats| longest_of(x)),
{
    let mut r = Stats {
        total_days: 0,
        satisfied_days: 0,
        broken_days: 0,
        current_streak: 0,
        longest_streak: 0,
    };
    let mut i: usize = 0;
    while i < all.len()
        invariant
            i <= all@.len(),
            sum_of(all@, |x: Stats| total_of(x)) <= u64::MAX,
            sum_of(all@, |x: Stats| satisfied_of(x)) <= u64::MAX,
            sum_of(all@, |x: Stats| broken_of(x)) <= u64::MAX,
            r.total_days == sum_of(all@.take(i as int), |x: Stats| total_of(x)),
            r.satisfied_days == sum_of(all@.take(i as int), |x: Stats| satisfied_of(x)),
            r.broken_days == sum_of(all@.take(i as int), |x: Stats| broken_of(x)),
            r.current_streak == max_of(all@.take(i as int), |x: Stats| current_of(x)),
            r.longest_streak == max_of(all@.take(i as int), |x: Stats| longest_of(x)),
        decreases all@.len() - i,
    {
        let x = all[i];
        proof {
            assert(all@.take(i + 1).drop_last() == all@.take(i as int));
            lemma_sum_prefix(all@, |x: Stats| total_of(x), i + 1);
            lemma_sum_prefix(all@, |x: Stats| satisfied_of(x), i + 1);
            lemma_sum_prefix(all@, |x: Stats| broken_of(x), i + 1);
        }
        r.total_days = r.total_days + x.total_days;
        r.satisfied_days = r.satisfied_days + x.satisfied_days;
        r.broken_days = r.broken_days + x.broken_days;
        if x.current_streak > r.current_streak {
            r.current_streak = x.current_streak;
        }
        if x.longest_streak > r.longest_streak {
            r.longest_streak = x.longest_streak;
        }
        i = i + 1;
    }
    assert(all@.take(i as int) == all@);
    r
}

/// Walks the `n` days that begin with day `start`.
fn scan(h: &Habit, start: i64, n: u64) -> (r: Stats)
    requires
        h.wf(),
        i32::MIN <= start,
        start + n - 1 <= i32::MAX,
    ensures
        r.agrees(tally(*h, start as int, n as nat), n as nat),
{
    let mut r = Stats {
        total_days: n,
        satisfied_days: 0,
        broken_days: 0,
        current_streak: 0,
        longest_streak: 0,
    };
    let mut k: u64 = 0;
    while k < n
        invariant
            h.wf(),
            k <= n,
            i32::MIN <= start,
            start + n - 1 <= i32::MAX,
            r.satisfied_days <= k,
            r.broken_days <= k,
            r.current_streak <= k,
            r.longest_streak <= k,
            r.agrees(tally(*h, start as int, k as nat), n as nat),
        decreases n - k,
    {
        let day = Date { day: (start + k as i64) as i32 };
        match h.evaluate(day) {
            WindowStatus::Satisfied => {
                r.satisfied_days = r.satisfied_days + 1;
                r.current_streak = r.current_streak + 1;
                if r.current_streak > r.longest_streak {
                    r.longest_streak = r.current_streak;
                }
            },
            WindowStatus::Broken => {
                r.broken_days = r.broken_days + 1;
                r.current_streak = 0;
            },
            _ => {},
        }
        k = k + 1;
    }
    r
}

impl Habit {
    /// The day a query from `from` starts on, and how many days it walks up to `to`.
    fn scan_bounds(&self, from: Date, to: Date) -> (r: (i64, u64))
        requires
            from.day <= to.day,
        ensures
            r.0 == scan_start(*self, from.day as int),
            r.1 == scan_len(*self, from.day as int, to.day as int),
    {
        let start: i64 = match self.first_record {
            Some(f) => if from.day < f.day {
                f.day as i64
            } else {
                from.day as i64
            },
            None => from.day as i64,
        };
        let n: u64 = if start <= to.day as i64 {
            (to.day as i64 - start + 1) as u64
        } else {
            0
        };
        (start, n)
    }

    /// Aggregate figures over `[from, to]`: the days from the later of `from`
    /// and the first record up to `to` are walked in order, each judged as
    /// `evaluate` does. Fails where `to` precedes `from`.
    pub fn aggregate(&self, from: Date, to: Date) -> (r: Result<Stats, RangeError>)
        requires
            self.wf(),
        ensures
            to.day < from.day ==> r == Err::<Stats, RangeError>(RangeError { from, to }),
            from.day <= to.day ==> r is Ok && r->Ok_0.agrees(
                tally(*self, scan_start(*self, from.day as int), scan_len(*self, from.day as int, to.day as int)),
                scan_len(*self, from.day as int, to.day as int),
            ),
    {
        if to.day < from.day {
            return Err(RangeError { from, to });
        }
        let (start, n) = self.scan_bounds(from, to);
        Ok(scan(self, start, n))
    }

    /// The current and longest streak over `[from, to]`, walked as `aggregate`
    /// walks it. Fails where `to` precedes `from`.
    pub fn streaks(&self, from: Date, to: Date) -> (r: Result<Streaks, RangeError>)
        requires
            self.wf(),
        ensures
            to.day < from.day ==> r == Err::<Streaks, RangeError>(RangeError { from, to }),
            from.day <= to.day ==> r is Ok && ({
                let t = tally(*self, scan_start(*self, from.day as int), scan_len(*self, from.day as int, to.day as int));
                r->Ok_0.current == t.current && r->Ok_0.longest == t.longest
            }),
    {
        if to.day < from.day {
            return Err(RangeError { from, to });
        }
        let (start, n) = self.scan_bounds(from, to);
        let s = scan(self, start, n);
        Ok(Streaks { current: s.current_streak, longest: s.longest_streak })
    }

    /// The judgement of every day of `[from, to]`, in order. Fails where
    /// `to` precedes `from`.
    pub fn statuses(&self, from: Date, to: Date) -> (r: Result<Vec<WindowStatus>, RangeError>)
        requires
            self.wf(),
        ensures
            to.day < from.day ==> r == Err::<Vec<WindowStatus>, RangeError>(RangeError { from, to }),
            from.day <= to.day ==> r is Ok && r->Ok_0@.len() == to.day - from.day + 1 && forall|i: int|
                0 <= i < r->Ok_0@.len() ==> #[trigger] r->Ok_0@[i] == self.status_at(from.day + i),
    {
        if to.day < from.day {
            return Err(RangeError { from, to });
        }
        let mut v: Vec<WindowStatus> = Vec::new();
        let n: i64 = to.day as i64 - from.day as i64 + 1;
        let mut k: i64 = 0;
        while k < n
            invariant
                self.wf(),
                0 <= k <= n,
                n == to.day - from.day + 1,
                v@.len() == k,
                forall|i: int| 0 <= i < v@.len() ==> #[trigger] v@[i] == self.status_at(from.day + i),
            decreases n - k,
        {
            let status = self.evaluate(Date { day: (from.day as i64 + k) as i32 });
            v.push(status);
            k = k + 1;
        }
        Ok(v)
    }
}


/// Some `Done` event of `events` is dated day `d`.
pub open spec fn has_done_on(events: Seq<Event>, d: int) -> bool {
    exists|i: int|
        0 <= i < events.len() && #[trigger] events[i].date.day == d && events[i].outcome
            == Outcome::Done
}

/// Day `d` does not lie after the habit's end date.
pub open spec fn not_ended(h: Habit, d: int) -> bool {
    match h.end_date {
        Some(e) => d <= e.day,
        None => true,
    }
}

proof fn lemma_done_on_counts(events: Seq<Event>, d: int, lo: int, hi: int)
    requires
        has_done_on(events, d),
        lo <= d <= hi,
    ensures
        done_in(events, lo, hi) >= 1,
    decreases events.len(),
{
    let i = choose|i: int|
        0 <= i < events.len() && #[trigger] events[i].date.day == d && events[i].outcome
            == Outcome::Done;
    if i < events.len() - 1 {
        assert(events.drop_last()[i].date.day == d);
        lemma_done_on_counts(events.drop_last(), d, lo, hi);
    }
}

proof fn lemma_done_in_clip(events: Seq<Event>, f: int, lo: int, hi: int)
    requires
        lo < f,
        forall|i: int| 0 <= i < events.len() ==> f <= #[trigger] events[i].date.day,
    ensures
        done_in(events, lo, hi) == done_in(events, f, hi),
    decreases events.len(),
{
    if events.len() > 0 {
        assert(f <= events[events.len() - 1].date.day);
        lemma_done_in_clip(events.drop_last(), f, lo, hi);
    }
}

proof fn lemma_all_satisfied(h: Habit, start: int, n: nat)
    requires
        forall|j: int| 0 <= j < n ==> #[trigger] h.status_at(start + j) == WindowStatus::Satisfied,
    ensures
        tally(h, start, n) == (Tally { satisfied: n, broken: 0, current: n, longest: n }),
    decreases n,
{
    if n > 0 {
        assert(h.status_at(start + (n - 1)) == WindowStatus::Satisfied);
        lemma_all_satisfied(h, start, (n - 1) as nat);
    }
}

/// A daily habit (target one, interval one) done on every day of
/// `[from, to]`, and not ended before `to`, is scored on every day of the
/// range and satisfied on each: nothing is broken, so the completion rate is
/// one, and the current and the longest streak both equal the number of days.
pub proof fn lemma_daily_all_done(h: Habit, from: int, to: int)
    requires
        h.wf(),
        h.target == 1,
        h.interval == 1,
        from <= to,
        not_ended(h, to),
        forall|d: int| from <= d <= to ==> has_done_on(h.events@, d),
    ensures
        scan_start(h, from) == from,
        scan_len(h, from, to) == to - from + 1,
        tally(h, from, scan_len(h, from, to)) == (Tally {
            satisfied: scan_len(h, from, to),
            broken: 0,
            current: scan_len(h, from, to),
            longest: scan_len(h, from, to),
        }),
{
    let events = h.events@;
    assert(has_done_on(events, from));
    let i0 = choose|i: int|
        0 <= i < events.len() && #[trigger] events[i].date.day == from && events[i].outcome
            == Outcome::Done;
    assert(events[0].date.day <= events[i0].date.day);
    let f = events[0].date.day as int;
    let n = (to - from + 1) as nat;
    assert forall|j: int| 0 <= j < n implies #[trigger] h.status_at(from + j)
        == WindowStatus::Satisfied by {
        let d = from + j;
        assert(has_done_on(events, d));
        assert(h.window_start(d) == d);
        lemma_done_on_counts(events, d, d, d);
    }
    lemma_all_satisfied(h, from, n);
}

/// Where every full window of `interval` days ending on a day of
/// `[from, to]` holds at least `target` completions, every day of the range
/// is satisfied; clipping a window at the first record loses nothing.
pub proof fn lemma_full_windows_satisfied(h: Habit, from: int, to: int)
    requires
        h.wf(),
        h.target > 0,
        h.first_record is Some,
        h.first_record->0.day <= from,
        not_ended(h, to),
        forall|d: int|
            from <= d <= to ==> #[trigger] done_in(h.events@, d - h.interval + 1, d) >= h.target,
    ensures
        forall|d: int| from <= d <= to ==> #[trigger] h.status_at(d) == WindowStatus::Satisfied,
{
    let events = h.events@;
    let f = h.first_record->0.day as int;
    assert forall|i: int| 0 <= i < events.len() implies f <= #[trigger] events[i].date.day by {
        if i > 0 {
            assert(events[0].date.day < events[i].date.day);
        }
    }
    assert forall|d: int| from <= d <= to implies #[trigger] h.status_at(d)
        == WindowStatus::Satisfied by {
        assert(done_in(events, d - h.interval + 1, d) >= h.target);
        if d - h.interval + 1 < f {
            lemma_done_in_clip(events, f, d - h.interval + 1, d);
        }
    }
}

proof fn lemma_tally_growth(h: Habit, start: int, j: nat, k: nat)
    requires
        j <= k,
    ensures
        tally(h, start, k).current <= tally(h, start, j).current + (k - j),
        tally(h, start, k).longest >= tally(h, start, j).longest,
    decreases k,
{
    if j < k {
        lemma_tally_growth(h, start, j, (k - 1) as nat);
    }
}

/// A broken day ends the streak: just after it the current streak is zero,
/// later on it counts at most the days after the break, and the longest
/// streak keeps at least the value it had before the break.
pub proof fn lemma_break_resets(h: Habit, start: int, n: nat, b: nat)
    requires
        b < n,
        h.status_at(start + b) == WindowStatus::Broken,
    ensures
        tally(h, start, b + 1).current == 0,
        tally(h, start, n).current <= n - b - 1,
        tally(h, start, n).longest >= tally(h, start, b).longest,
{
    assert(tally(h, start, b + 1) == step(tally(h, start, b), h.status_at(start + b)));
    lemma_tally_growth(h, start, b + 1, n);
    lemma_tally_growth(h, start, b, n);
}

/// The day is one that a walk passes over without change.
pub open spec fn is_transparent(s: WindowStatus) -> bool {
    s == WindowStatus::Untracked || s == WindowStatus::Inactive
}

proof fn lemma_skip_first(h: Habit, s: int, n: nat)
    requires
        n >= 1,
        is_transparent(h.status_at(s)),
    ensures
        tally(h, s, n) == tally(h, s + 1, (n - 1) as nat),
    decreases n,
{
    if n > 1 {
        lemma_skip_first(h, s, (n - 1) as nat);
        assert(tally(h, s, n) == step(tally(h, s, (n - 1) as nat), h.status_at(s + n - 1)));
        assert(tally(h, s + 1, (n - 1) as nat) == step(
            tally(h, s + 1, (n - 2) as nat),
            h.status_at((s + 1) + (n - 1) - 1),
        ));
    } else {
        assert(tally(h, s, 1) == step(tally(h, s, 0), h.status_at(s)));
    }
}

/// Days before the first record are never scored and never break a streak:
/// each is untracked or inactive, and a walk from any earlier day up to `to`
/// gives the same figures as the walk from the first record.
pub proof fn lemma_before_first_record(h: Habit, from: int, to: int)
    requires
        h.first_record is Some,
        from <= h.first_record->0.day <= to,
    ensures
        forall|d: int| d < h.first_record->0.day ==> is_transparent(#[trigger] h.status_at(d)),
        tally(h, from, (to - from + 1) as nat) == tally(
            h,
            h.first_record->0.day as int,
            (to - h.first_record->0.day + 1) as nat,
        ),
    decreases h.first_record->0.day - from,
{
    if from < h.first_record->0.day {
        lemma_skip_first(h, from, (to - from + 1) as nat);
        lemma_before_first_record(h, from + 1, to);
    }
}

} // verus!
