use stundenplan::dates::Date;
use stundenplan::records::{Data, Day, Group, Lesson, Subject, Time, WeekJournalReply};
use stundenplan::search::{
    week_key, week_key_string, FetchResult, Resolver, ResolveStep, WeekKey,
};

fn mk_lesson(nr: i32, level_id: i32) -> Lesson {
    Lesson {
        id: Some(1),
        nr,
        group: Group { id: Some(2), local_id: "5a".to_string(), level_id },
        subject: Subject {
            for_field: String::new(),
            id: Some(3),
            local_id: "MA".to_string(),
            name: "Mathematik".to_string(),
            tags: Vec::new(),
        },
        status: String::new(),
        rooms: Vec::new(),
        teachers: Vec::new(),
        time: Time { id: Some(1), nr, from: "08:00".to_string(), to: "08:45".to_string() },
    }
}

fn mk_day(date: &str, lessons: Vec<Lesson>) -> Day {
    Day { id: "d".to_string(), date: date.to_string(), lessons, notes: Vec::new() }
}

fn mk_week(days: Vec<Day>) -> WeekJournalReply {
    WeekJournalReply { data: Data { days } }
}

fn d(year: i32, month: i32, day: i32) -> Date {
    Date { year, month, day }
}

#[test]
fn school_day_resolves_immediately() {
    let requested = d(2024, 1, 10);
    let (mut resolver, first) = Resolver::new(requested);
    assert_eq!(first, week_key(&requested));
    let payload = mk_week(vec![mk_day("2024-01-10", vec![mk_lesson(1, 5)])]);
    match resolver.step(FetchResult::Success(payload)) {
        ResolveStep::Finished(tt) => {
            assert_eq!(tt.days_off_before, 0);
            assert_eq!(tt.actual_date, requested);
            assert_eq!(tt.classes.len(), 1);
        },
        _ => panic!("expected an immediate result"),
    }
}

#[test]
fn initial_fetch_failure_is_fatal() {
    let (mut resolver, _) = Resolver::new(d(2024, 1, 10));
    match resolver.step(FetchResult::Failure) {
        ResolveStep::Failed => {},
        _ => panic!("the first fetch failing must abort the resolution"),
    }
}

#[test]
fn holiday_search_finds_a_later_day_in_the_same_week_without_refetch() {
    // Wednesday 2024-01-10 has no lessons; Friday 2024-01-12, in the same ISO
    // week, does. One fetch must settle all three days.
    let requested = d(2024, 1, 10);
    let (mut resolver, _) = Resolver::new(requested);
    let payload = mk_week(vec![
        mk_day("2024-01-10", vec![]),
        mk_day("2024-01-12", vec![mk_lesson(2, 5)]),
    ]);
    match resolver.step(FetchResult::Success(payload)) {
        ResolveStep::Finished(tt) => {
            assert_eq!(tt.days_off_before, 2);
            assert_eq!(tt.actual_date, d(2024, 1, 12));
            assert_eq!(tt.classes.len(), 1);
        },
        other => match other {
            ResolveStep::NeedFetch(_) => panic!("the week was already fetched"),
            _ => panic!("expected the Friday result"),
        },
    }
}

#[test]
fn holiday_search_counts_weekend_days() {
    // Friday 2024-01-12 empty; Monday 2024-01-15 (next ISO week) has lessons.
    let requested = d(2024, 1, 12);
    let (mut resolver, _) = Resolver::new(requested);
    let week2 = mk_week(vec![mk_day("2024-01-12", vec![])]);
    let step = resolver.step(FetchResult::Success(week2));
    let key = match step {
        ResolveStep::NeedFetch(k) => k,
        _ => panic!("the next school week must be fetched"),
    };
    assert_eq!(key, week_key(&d(2024, 1, 15)));
    let week3 = mk_week(vec![mk_day("2024-01-15", vec![mk_lesson(1, 5)])]);
    match resolver.step(FetchResult::Success(week3)) {
        ResolveStep::Finished(tt) => {
            assert_eq!(tt.days_off_before, 3);
            assert_eq!(tt.actual_date, d(2024, 1, 15));
        },
        _ => panic!("expected the Monday result"),
    }
}

#[test]
fn exhausted_horizon_returns_the_empty_original_day() {
    // No lessons anywhere: the search must stop after 21 days and return the
    // requested date's empty resolution, fetching each touched week once.
    let requested = d(2024, 1, 10);
    let (mut resolver, first) = Resolver::new(requested);
    let mut keys: Vec<WeekKey> = vec![first];
    let mut step = resolver.step(FetchResult::Success(mk_week(vec![])));
    let mut fetches: u32 = 0;
    loop {
        match step {
            ResolveStep::NeedFetch(k) => {
                for seen in &keys {
                    assert!(*seen != k, "a week was fetched twice");
                }
                keys.push(k);
                fetches += 1;
                assert!(fetches <= 4, "too many fetches for a three week horizon");
                step = resolver.step(FetchResult::Success(mk_week(vec![])));
            },
            ResolveStep::Finished(tt) => {
                assert_eq!(tt.days_off_before, 0);
                assert_eq!(tt.actual_date, requested);
                assert!(tt.classes.is_empty());
                break;
            },
            ResolveStep::Failed => panic!("search failures are not fatal"),
        }
    }
    // weeks 2 through 5 of 2024 and nothing else
    assert_eq!(keys.len(), 4);
}

#[test]
fn failed_search_fetch_skips_the_day_and_retries_the_week() {
    // Wednesday 2024-01-10 empty; the fetch for the next week fails once
    // (skipping Monday 2024-01-15), then succeeds with lessons on Tuesday.
    let requested = d(2024, 1, 10);
    let (mut resolver, _) = Resolver::new(requested);
    let week2 = mk_week(vec![mk_day("2024-01-10", vec![])]);
    let step = resolver.step(FetchResult::Success(week2));
    let key1 = match step {
        ResolveStep::NeedFetch(k) => k,
        _ => panic!("the next week must be fetched"),
    };
    assert_eq!(key1, week_key(&d(2024, 1, 15)));
    let step2 = resolver.step(FetchResult::Failure);
    let key2 = match step2 {
        ResolveStep::NeedFetch(k) => k,
        _ => panic!("a failed fetch must not abort the search"),
    };
    assert_eq!(key2, key1, "the same week is needed for the next day");
    let week3 = mk_week(vec![mk_day("2024-01-16", vec![mk_lesson(1, 5)])]);
    match resolver.step(FetchResult::Success(week3)) {
        ResolveStep::Finished(tt) => {
            assert_eq!(tt.days_off_before, 6);
            assert_eq!(tt.actual_date, d(2024, 1, 16));
        },
        _ => panic!("expected the Tuesday result"),
    }
}

#[test]
fn week_key_string_has_year_dash_week() {
    assert_eq!(week_key_string(&WeekKey { iso_year: 2024, iso_week: 5 }), "2024-5");
    assert_eq!(week_key_string(&WeekKey { iso_year: 2024, iso_week: 52 }), "2024-52");
    assert_eq!(week_key_string(&week_key(&d(2024, 1, 15))), "2024-3");
}
