use stundenplan::dates::Date;
use stundenplan::extract::{extract_day_from_week, has_lessons};
use stundenplan::records::{
    Data, Day, Group, Lesson, Notes, Room, Subject, Teacher, Time, WeekJournalReply,
};

fn mk_time(nr: i32, from: &str, to: &str) -> Time {
    Time { id: Some(nr), nr, from: from.to_string(), to: to.to_string() }
}

fn mk_lesson(nr: i32, level_id: i32, local_id: &str) -> Lesson {
    Lesson {
        id: Some(1),
        nr,
        group: Group { id: Some(2), local_id: local_id.to_string(), level_id },
        subject: Subject {
            for_field: String::new(),
            id: Some(3),
            local_id: "MA".to_string(),
            name: "Mathematik".to_string(),
            tags: Vec::new(),
        },
        status: String::new(),
        rooms: vec![Room { id: Some(4), local_id: "R1".to_string() }],
        teachers: vec![Teacher {
            id: Some(5),
            local_id: "T".to_string(),
            forename: "Ada".to_string(),
            name: "Lovelace".to_string(),
        }],
        time: mk_time(nr, "08:00", "08:45"),
    }
}

fn mk_note(description: &str) -> Notes {
    Notes {
        id: Some("n1".to_string()),
        for_field: String::new(),
        source: String::new(),
        description: description.to_string(),
        notable_type: None,
    }
}

fn mk_week(days: Vec<Day>) -> WeekJournalReply {
    WeekJournalReply { data: Data { days } }
}

fn mk_day(date: &str, lessons: Vec<Lesson>, notes: Vec<Notes>) -> Day {
    Day { id: "d1".to_string(), date: date.to_string(), lessons, notes }
}

fn d(year: i32, month: i32, day: i32) -> Date {
    Date { year, month, day }
}

#[test]
fn invalid_lessons_are_discarded() {
    let week = mk_week(vec![mk_day(
        "2024-01-10",
        vec![mk_lesson(0, 7, "7a"), mk_lesson(1, 0, "7a"), mk_lesson(2, 7, "7a")],
        vec![],
    )]);
    let (_, classes, _) = extract_day_from_week(&week, &d(2024, 1, 10));
    assert_eq!(classes.len(), 1);
    assert_eq!(classes[0].subjects.len(), 1);
    for col in &classes {
        for lesson in &col.subjects {
            assert!(lesson.group.level_id != 0);
            assert!(lesson.nr != 0);
        }
    }
}

#[test]
fn lessons_are_sorted_by_nr() {
    let week = mk_week(vec![mk_day(
        "2024-01-10",
        vec![
            mk_lesson(4, 7, "7a"),
            mk_lesson(1, 7, "7a"),
            mk_lesson(3, 7, "7a"),
            mk_lesson(2, 7, "7a"),
        ],
        vec![],
    )]);
    let (_, classes, _) = extract_day_from_week(&week, &d(2024, 1, 10));
    assert_eq!(classes.len(), 1);
    let nrs: Vec<i32> = classes[0].subjects.iter().map(|l| l.nr).collect();
    assert_eq!(nrs, vec![1, 2, 3, 4]);
}

#[test]
fn class_name_is_the_common_prefix() {
    let week = mk_week(vec![mk_day(
        "2024-01-10",
        vec![mk_lesson(1, 5, "5a"), mk_lesson(2, 5, "5a"), mk_lesson(3, 5, "5b")],
        vec![],
    )]);
    let (_, classes, _) = extract_day_from_week(&week, &d(2024, 1, 10));
    assert_eq!(classes.len(), 1);
    assert_eq!(classes[0].class_name, "5");
}

#[test]
fn class_name_shrinks_to_empty_on_full_mismatch() {
    let week = mk_week(vec![mk_day(
        "2024-01-10",
        vec![mk_lesson(1, 5, "5a"), mk_lesson(2, 5, "6b")],
        vec![],
    )]);
    let (_, classes, _) = extract_day_from_week(&week, &d(2024, 1, 10));
    assert_eq!(classes.len(), 1);
    assert_eq!(classes[0].class_name, "");
}

#[test]
fn one_column_per_level_in_first_seen_order() {
    let week = mk_week(vec![mk_day(
        "2024-01-10",
        vec![mk_lesson(1, 9, "9a"), mk_lesson(1, 5, "5a"), mk_lesson(2, 9, "9a")],
        vec![],
    )]);
    let (_, classes, _) = extract_day_from_week(&week, &d(2024, 1, 10));
    assert_eq!(classes.len(), 2);
    assert_eq!(classes[0].class_name, "9a");
    assert_eq!(classes[0].subjects.len(), 2);
    assert_eq!(classes[1].class_name, "5a");
    assert_eq!(classes[1].subjects.len(), 1);
}

#[test]
fn first_time_for_an_hour_wins() {
    let mut first = mk_lesson(1, 5, "5a");
    first.time = mk_time(1, "08:00", "08:45");
    let mut second = mk_lesson(1, 6, "6a");
    second.time = mk_time(1, "09:00", "09:45");
    let week = mk_week(vec![mk_day("2024-01-10", vec![first, second], vec![])]);
    let (times, _, _) = extract_day_from_week(&week, &d(2024, 1, 10));
    assert_eq!(times.get(&1).unwrap().from, "08:00");
}

#[test]
fn missing_day_yields_empty_results() {
    let week = mk_week(vec![mk_day("2024-01-09", vec![mk_lesson(1, 5, "5a")], vec![])]);
    let (times, classes, notes) = extract_day_from_week(&week, &d(2024, 1, 10));
    assert!(times.is_empty());
    assert!(classes.is_empty());
    assert!(notes.is_empty());
    assert!(!has_lessons(&classes));
}

#[test]
fn notes_are_copied_verbatim() {
    let week = mk_week(vec![mk_day(
        "2024-01-10",
        vec![],
        vec![mk_note("Erster Hinweis"), mk_note("Zweiter Hinweis")],
    )]);
    let (_, _, notes) = extract_day_from_week(&week, &d(2024, 1, 10));
    assert_eq!(notes.len(), 2);
    assert_eq!(notes[0].description, "Erster Hinweis");
    assert_eq!(notes[1].description, "Zweiter Hinweis");
}

#[test]
fn shorter_label_can_be_the_whole_prefix() {
    let week = mk_week(vec![mk_day(
        "2024-01-10",
        vec![mk_lesson(1, 5, "5ab"), mk_lesson(2, 5, "5a")],
        vec![],
    )]);
    let (_, classes, _) = extract_day_from_week(&week, &d(2024, 1, 10));
    assert_eq!(classes[0].class_name, "5a");
}

#[test]
fn first_matching_day_record_is_used() {
    let week = mk_week(vec![
        mk_day("2024-01-10", vec![mk_lesson(1, 5, "5a")], vec![]),
        mk_day("2024-01-10", vec![mk_lesson(2, 9, "9a")], vec![]),
    ]);
    let (_, classes, _) = extract_day_from_week(&week, &d(2024, 1, 10));
    assert_eq!(classes.len(), 1);
    assert_eq!(classes[0].class_name, "5a");
}
