use std::collections::HashMap;
use stundenplan::dates::Date;
use stundenplan::merge::{merge_subject_lists, subject_name};
use stundenplan::records::{Group, Lesson, Notes, Subject, SubjectList, Time, TimeTable};

fn mk_time(nr: i32, from: &str, to: &str) -> Time {
    Time { id: Some(nr), nr, from: from.to_string(), to: to.to_string() }
}

fn mk_lesson(nr: i32, level_id: i32, subject_name_text: &str, subject_short: &str) -> Lesson {
    Lesson {
        id: Some(1),
        nr,
        group: Group { id: Some(2), local_id: "5a".to_string(), level_id },
        subject: Subject {
            for_field: String::new(),
            id: Some(3),
            local_id: subject_short.to_string(),
            name: subject_name_text.to_string(),
            tags: Vec::new(),
        },
        status: String::new(),
        rooms: Vec::new(),
        teachers: Vec::new(),
        time: mk_time(nr, "08:00", "08:45"),
    }
}

fn mk_note(description: &str) -> Notes {
    Notes {
        id: None,
        for_field: String::new(),
        source: String::new(),
        description: description.to_string(),
        notable_type: None,
    }
}

fn d(year: i32, month: i32, day: i32) -> Date {
    Date { year, month, day }
}

fn empty_timetable() -> TimeTable {
    TimeTable {
        times: HashMap::new(),
        classes: Vec::new(),
        notes: Vec::new(),
        actual_date: d(2024, 1, 10),
        days_off_before: 0,
    }
}

fn two_class_timetable() -> TimeTable {
    let mut times: HashMap<i32, Time> = HashMap::new();
    times.insert(1, mk_time(1, "08:00", "08:45"));
    times.insert(3, mk_time(3, "10:00", "10:45"));
    TimeTable {
        times,
        classes: vec![
            SubjectList {
                class_name: "5a".to_string(),
                subjects: vec![mk_lesson(1, 5, "Mathematik", "MA"), mk_lesson(3, 5, "Kunst", "KU")],
            },
            SubjectList {
                class_name: "7b".to_string(),
                subjects: vec![mk_lesson(2, 7, "Deutsch", "DE")],
            },
        ],
        notes: Vec::new(),
        actual_date: d(2024, 1, 10),
        days_off_before: 0,
    }
}

#[test]
fn last_hour_is_minus_one_without_lessons_and_hours_empty() {
    let merged = merge_subject_lists(
        "2024-01-10".to_string(),
        empty_timetable(),
        &d(2024, 1, 10),
        "10.01.2024, 08:00".to_string(),
    );
    assert_eq!(merged.last_hour, -1);
    assert!(merged.hours.is_empty());
}

#[test]
fn last_hour_is_the_maximum_nr_and_hours_run_to_it() {
    let merged = merge_subject_lists(
        "2024-01-10".to_string(),
        two_class_timetable(),
        &d(2024, 1, 10),
        "10.01.2024, 08:00".to_string(),
    );
    assert_eq!(merged.last_hour, 3);
    assert_eq!(merged.hours.len(), 3);
    assert_eq!(merged.class_names, vec!["5a".to_string(), "7b".to_string()]);
}

#[test]
fn rows_hold_the_lesson_of_each_column_or_nothing() {
    let merged = merge_subject_lists(
        "2024-01-10".to_string(),
        two_class_timetable(),
        &d(2024, 1, 10),
        "10.01.2024, 08:00".to_string(),
    );
    let row1 = &merged.hours[0];
    assert_eq!(row1.hour, 1);
    assert_eq!(row1.time.as_ref().unwrap().from, "08:00");
    assert_eq!(row1.subjects[0].as_ref().unwrap().subject.name, "Mathematik");
    assert!(row1.subjects[1].is_none());
    let row2 = &merged.hours[1];
    assert_eq!(row2.hour, 2);
    assert!(row2.time.is_none());
    assert!(row2.subjects[0].is_none());
    assert_eq!(row2.subjects[1].as_ref().unwrap().subject.name, "Deutsch");
    let row3 = &merged.hours[2];
    assert_eq!(row3.hour, 3);
    assert_eq!(row3.time.as_ref().unwrap().from, "10:00");
    assert_eq!(row3.subjects[0].as_ref().unwrap().subject.name, "Kunst");
    assert!(row3.subjects[1].is_none());
}

#[test]
fn is_today_compares_the_formatted_dates() {
    let merged = merge_subject_lists(
        "2024-01-10".to_string(),
        empty_timetable(),
        &d(2024, 1, 10),
        "x".to_string(),
    );
    assert!(merged.is_today);
    let merged2 = merge_subject_lists(
        "2024-01-10".to_string(),
        empty_timetable(),
        &d(2024, 1, 11),
        "x".to_string(),
    );
    assert!(!merged2.is_today);
}

#[test]
fn note_lines_are_flattened_and_dashes_stripped() {
    let mut tt = empty_timetable();
    tt.notes.push(mk_note("- Foo\n\u{2014}Bar\n\nBaz"));
    let merged =
        merge_subject_lists("2024-01-10".to_string(), tt, &d(2024, 1, 10), "x".to_string());
    assert_eq!(
        merged.notes,
        vec!["Foo".to_string(), "Bar".to_string(), "Baz".to_string()]
    );
}

#[test]
fn note_lines_keep_order_across_notes() {
    let mut tt = empty_timetable();
    tt.notes.push(mk_note("\u{2013} Erste Zeile \nZweite"));
    tt.notes.push(mk_note("  Dritte  "));
    let merged =
        merge_subject_lists("2024-01-10".to_string(), tt, &d(2024, 1, 10), "x".to_string());
    assert_eq!(
        merged.notes,
        vec!["Erste Zeile".to_string(), "Zweite".to_string(), "Dritte".to_string()]
    );
}

#[test]
fn merge_twice_yields_identical_grids() {
    let a = merge_subject_lists(
        "2024-01-10".to_string(),
        two_class_timetable(),
        &d(2024, 1, 10),
        "10.01.2024, 08:00".to_string(),
    );
    let b = merge_subject_lists(
        "2024-01-10".to_string(),
        two_class_timetable(),
        &d(2024, 1, 10),
        "10.01.2024, 08:00".to_string(),
    );
    assert_eq!(a, b);
}

#[test]
fn subject_name_prefers_the_full_name() {
    let l = mk_lesson(1, 5, "Kunst", "KU");
    assert_eq!(subject_name(&l), "Kunst");
}

#[test]
fn subject_name_falls_back_for_empty_or_long_names() {
    let empty = mk_lesson(1, 5, "", "KU");
    assert_eq!(subject_name(&empty), "KU");
    let long = mk_lesson(1, 5, "Gemeinschaftskunde", "GK");
    assert_eq!(subject_name(&long), "GK");
}

#[test]
fn dash_only_and_blank_lines_are_dropped() {
    let mut tt = empty_timetable();
    tt.notes.push(mk_note("---\n   \n\u{2013}\u{2014}"));
    let merged =
        merge_subject_lists("2024-01-10".to_string(), tt, &d(2024, 1, 10), "x".to_string());
    assert!(merged.notes.is_empty());
}

#[test]
fn first_lesson_of_an_hour_fills_the_cell() {
    let mut tt = empty_timetable();
    tt.classes.push(SubjectList {
        class_name: "5a".to_string(),
        subjects: vec![mk_lesson(2, 5, "Mathematik", "MA"), mk_lesson(2, 5, "Kunst", "KU")],
    });
    let merged =
        merge_subject_lists("2024-01-10".to_string(), tt, &d(2024, 1, 10), "x".to_string());
    assert_eq!(merged.hours.len(), 2);
    assert!(merged.hours[0].subjects[0].is_none());
    assert_eq!(
        merged.hours[1].subjects[0].as_ref().unwrap().subject.name,
        "Mathematik"
    );
}
