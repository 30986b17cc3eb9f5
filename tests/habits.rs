use harsh::frequency::ParseErrorKind;
use harsh::habit::{Date, Habit, Outcome, RecordError, WindowStatus};
use harsh::stats::{overall, RangeError, Stats, Streaks};

fn day(n: i32) -> Date {
    Date { day: n }
}

fn habit(freq: &str, done: &[i32]) -> Habit {
    let mut h = Habit::new("Meditated".to_string(), freq.to_string(), None).unwrap();
    for &d in done {
        h.record(day(d), Outcome::Done).unwrap();
    }
    h
}

fn rate(s: &Stats) -> f64 {
    let (n, d) = s.completion_rate();
    n as f64 / d as f64
}

#[test]
fn new_parses_frequency() {
    let h = Habit::new("Read".to_string(), "3/7".to_string(), Some(day(40))).unwrap();
    assert_eq!((h.target, h.interval), (3, 7));
    assert_eq!(h.first_record, None);
    assert_eq!(h.end_date, Some(day(40)));
    assert_eq!(h.heading, None);
    let e = Habit::new("Read".to_string(), "x".to_string(), None).unwrap_err();
    assert_eq!(e.kind, ParseErrorKind::Unrecognized);
    assert_eq!(e.raw, "x");
}

#[test]
fn meditated_three_in_seven() {
    let h = habit("3/7", &[1, 2, 3]);
    assert_eq!(h.first_record, Some(day(1)));
    assert_eq!(h.evaluate(day(7)), WindowStatus::Satisfied);
    assert_eq!(h.evaluate(day(8)), WindowStatus::Broken);
}

#[test]
fn daily_done_every_day() {
    let h = habit("1", &[1, 2, 3, 4, 5, 6, 7, 8, 9, 10]);
    let s = h.aggregate(day(1), day(10)).unwrap();
    assert_eq!(s.total_days, 10);
    assert_eq!(s.satisfied_days, 10);
    assert_eq!(s.broken_days, 0);
    assert_eq!(rate(&s), 1.0);
    assert_eq!(s.current_streak, 10);
    assert_eq!(s.longest_streak, 10);
    assert_eq!(h.streaks(day(1), day(10)).unwrap(), Streaks { current: 10, longest: 10 });
}

#[test]
fn three_per_week_every_window() {
    let done: Vec<i32> = (1..=34).filter(|d| d % 7 == 1 || d % 7 == 3 || d % 7 == 5).collect();
    let h = habit("3/7", &done);
    let v = h.statuses(day(7), day(34)).unwrap();
    assert_eq!(v.len(), 28);
    assert!(v.iter().all(|s| *s == WindowStatus::Satisfied));
}

#[test]
fn break_resets_current_streak() {
    let h = habit("1", &[1, 2, 3, 4, 5, 7, 8, 9, 10]);
    assert_eq!(h.evaluate(day(6)), WindowStatus::Broken);
    assert_eq!(h.streaks(day(1), day(6)).unwrap(), Streaks { current: 0, longest: 5 });
    assert_eq!(h.streaks(day(1), day(10)).unwrap(), Streaks { current: 4, longest: 5 });
    let s = h.aggregate(day(1), day(10)).unwrap();
    assert_eq!((s.satisfied_days, s.broken_days), (9, 1));
    assert_eq!(s.completion_rate(), (9, 10));
}

#[test]
fn days_before_first_record_do_not_count() {
    let h = habit("1", &[10, 11, 12]);
    for d in 1..10 {
        assert_eq!(h.evaluate(day(d)), WindowStatus::Inactive);
    }
    let early = h.aggregate(day(1), day(12)).unwrap();
    let late = h.aggregate(day(10), day(12)).unwrap();
    assert_eq!(early, late);
    assert_eq!(early.total_days, 3);
    assert_eq!(early.current_streak, 3);
}

#[test]
fn rate_is_zero_without_scored_days() {
    let h = habit("1", &[]);
    let s = h.aggregate(day(1), day(5)).unwrap();
    assert_eq!((s.satisfied_days, s.broken_days), (0, 0));
    assert_eq!(s.completion_rate(), (0, 1));
    assert_eq!(rate(&s), 0.0);
    let t = habit("0", &[1, 2]);
    assert_eq!(t.evaluate(day(2)), WindowStatus::Untracked);
    let s = t.aggregate(day(1), day(5)).unwrap();
    assert_eq!(s.completion_rate(), (0, 1));
}

#[test]
fn reversed_range_is_an_error() {
    let h = habit("1", &[1]);
    let e = RangeError { from: day(5), to: day(4) };
    assert_eq!(h.aggregate(day(5), day(4)), Err(e));
    assert_eq!(h.streaks(day(5), day(4)), Err(e));
    assert_eq!(h.statuses(day(5), day(4)), Err(e));
    assert_eq!(h.aggregate(day(4), day(4)).unwrap().total_days, 1);
    let later = habit("1", &[10]);
    assert_eq!(later.aggregate(day(4), day(5)).unwrap().total_days, 0);
}

#[test]
fn end_date_stops_scoring() {
    let mut h = Habit::new("Run".to_string(), "1".to_string(), Some(day(3))).unwrap();
    for d in 1..=3 {
        h.record(day(d), Outcome::Done).unwrap();
    }
    assert_eq!(h.evaluate(day(4)), WindowStatus::Inactive);
    let s = h.aggregate(day(1), day(9)).unwrap();
    assert_eq!((s.satisfied_days, s.broken_days, s.total_days), (3, 0, 9));
    assert_eq!((s.current_streak, s.longest_streak), (3, 3));
}

#[test]
fn clipped_window_at_first_record() {
    let h = habit("2/7", &[5, 6]);
    assert_eq!(h.evaluate(day(5)), WindowStatus::Broken);
    assert_eq!(h.evaluate(day(6)), WindowStatus::Satisfied);
    assert_eq!(h.evaluate(day(12)), WindowStatus::Broken);
}

#[test]
fn record_appends_replaces_and_refuses() {
    let mut h = habit("1", &[1, 2]);
    h.record(day(2), Outcome::Skipped).unwrap();
    assert_eq!(h.events.len(), 2);
    assert_eq!(h.events[1].outcome, Outcome::Skipped);
    assert_eq!(h.evaluate(day(2)), WindowStatus::Broken);
    assert_eq!(
        h.record(day(1), Outcome::Done),
        Err(RecordError { latest: day(2), offered: day(1) })
    );
    h.record(day(4), Outcome::NoRecord).unwrap();
    assert_eq!(h.events.len(), 3);
    assert_eq!(h.first_record, Some(day(1)));
}

#[test]
fn overall_sums_counts() {
    let a = habit("1", &[1, 2, 3]).aggregate(day(1), day(4)).unwrap();
    let b = habit("1", &[1]).aggregate(day(1), day(2)).unwrap();
    let o = overall(&vec![a, b]);
    assert_eq!((o.total_days, o.satisfied_days, o.broken_days), (6, 4, 2));
    assert_eq!(o.completion_rate(), (4, 6));
    assert_eq!((o.current_streak, o.longest_streak), (0, 3));
    assert_eq!(overall(&vec![]).completion_rate(), (0, 1));
}

#[test]
fn dates_from_calendar() {
    assert_eq!(Date::from_ymd(1970, 1, 1), Some(day(719_163)));
    assert_eq!(Date::from_ymd(1, 1, 1), Some(day(1)));
    let a = Date::from_ymd(2024, 2, 28).unwrap();
    let b = Date::from_ymd(2024, 2, 29).unwrap();
    let c = Date::from_ymd(2024, 3, 1).unwrap();
    assert_eq!((b.day - a.day, c.day - b.day), (1, 1));
    assert_eq!(Date::from_ymd(2023, 2, 29), None);
    assert_eq!(Date::from_ymd(2024, 13, 1), None);
    assert_eq!(Date::from_ymd(2024, 4, 0), None);
}
