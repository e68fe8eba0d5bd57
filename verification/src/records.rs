//! The data model: raw week payloads as fetched (days, lessons, notes) and the
//! resolved timetable they are turned into.

use vstd::prelude::*;
use std::collections::HashMap;
use crate::dates::Date;

verus! {

/// The raw response for one ISO week.
#[derive(Debug)]
pub struct WeekJournalReply {
    pub data: Data,
}

#[derive(Debug)]
pub struct Data {
    pub days: Vec<Day>,
}

/// One day's records inside a week payload; matched by its `YYYY-MM-DD` date.
#[derive(Debug)]
pub struct Day {
    pub id: String,
    pub date: String,
    pub lessons: Vec<Lesson>,
    pub notes: Vec<Notes>,
}

/// A free-text note attached to a day.
#[derive(Debug, PartialEq)]
pub struct Notes {
    pub id: Option<String>,
    pub for_field: String,
    pub source: String,
    pub description: String,
    pub notable_type: Option<String>,
}

#[derive(Debug, PartialEq)]
pub struct Teacher {
    pub id: Option<i32>,
    pub local_id: String,
    pub forename: String,
    pub name: String,
}

#[derive(Debug, PartialEq)]
pub struct Subject {
    pub for_field: String,
    pub id: Option<i32>,
    pub local_id: String,
    pub name: String,
    pub tags: Vec<String>,
}

/// The start and end of an hour slot.
#[derive(Debug, PartialEq)]
pub struct Time {
    pub id: Option<i32>,
    pub nr: i32,
    pub from: String,
    pub to: String,
}

/// One scheduled lesson. Invalid and discarded iff `group.level_id == 0` or
/// `nr == 0`.
#[derive(Debug, PartialEq)]
pub struct Lesson {
    pub id: Option<i32>,
    pub nr: i32,
    pub group: Group,
    pub subject: Subject,
    pub status: String,
    pub rooms: Vec<Room>,
    pub teachers: Vec<Teacher>,
    pub time: Time,
}

/// The class-level identity of a lesson.
#[derive(Debug, PartialEq)]
pub struct Group {
    pub id: Option<i32>,
    pub local_id: String,
    pub level_id: i32,
}

#[derive(Debug, PartialEq)]
pub struct Room {
    pub id: Option<i32>,
    pub local_id: String,
}

/// One display column: a derived class name and its lessons, sorted by `nr`.
#[derive(Debug)]
pub struct SubjectList {
    pub class_name: String,
    pub subjects: Vec<Lesson>,
}

/// The resolved day: hour-to-slot times, per-class lesson columns, the day's
/// notes, the date actually resolved, and how many calendar days it lies past
/// the requested date.
#[derive(Debug)]
pub struct TimeTable {
    pub times: HashMap<i32, Time>,
    pub classes: Vec<SubjectList>,
    pub notes: Vec<Notes>,
    pub actual_date: Date,
    pub days_off_before: i32,
}

/// Mathematical content of a `Subject`: `Vec` replaced by `Seq`.
#[verifier::ext_equal]
pub ghost struct SubjectView {
    pub for_field: String,
    pub id: Option<i32>,
    pub local_id: String,
    pub name: String,
    pub tags: Seq<String>,
}

/// Mathematical content of a `Lesson`: `Vec` replaced by `Seq`.
#[verifier::ext_equal]
pub ghost struct LessonView {
    pub id: Option<i32>,
    pub nr: i32,
    pub group: Group,
    pub subject: SubjectView,
    pub status: String,
    pub rooms: Seq<Room>,
    pub teachers: Seq<Teacher>,
    pub time: Time,
}

impl View for Subject {
    type V = SubjectView;

    open spec fn view(&self) -> SubjectView {
        SubjectView {
            for_field: self.for_field,
            id: self.id,
            local_id: self.local_id,
            name: self.name,
            tags: self.tags@,
        }
    }
}

impl View for Lesson {
    type V = LessonView;

    open spec fn view(&self) -> LessonView {
        LessonView {
            id: self.id,
            nr: self.nr,
            group: self.group,
            subject: self.subject@,
            status: self.status,
            rooms: self.rooms@,
            teachers: self.teachers@,
            time: self.time,
        }
    }
}

impl Clone for Notes {
    fn clone(&self) -> (r: Self)
        ensures
            r == *self,
    {
        Notes {
            id: match &self.id {
                Some(s) => Some(s.clone()),
                None => None,
            },
            for_field: self.for_field.clone(),
            source: self.source.clone(),
            description: self.description.clone(),
            notable_type: match &self.notable_type {
                Some(s) => Some(s.clone()),
                None => None,
            },
        }
    }
}

impl Clone for Teacher {
    fn clone(&self) -> (r: Self)
        ensures
            r == *self,
    {
        Teacher {
            id: self.id,
            local_id: self.local_id.clone(),
            forename: self.forename.clone(),
            name: self.name.clone(),
        }
    }
}

impl Clone for Time {
    fn clone(&self) -> (r: Self)
        ensures
            r == *self,
    {
        Time { id: self.id, nr: self.nr, from: self.from.clone(), to: self.to.clone() }
    }
}

impl Clone for Group {
    fn clone(&self) -> (r: Self)
        ensures
            r == *self,
    {
        Group { id: self.id, local_id: self.local_id.clone(), level_id: self.level_id }
    }
}

impl Clone for Room {
    fn clone(&self) -> (r: Self)
        ensures
            r == *self,
    {
        Room { id: self.id, local_id: self.local_id.clone() }
    }
}

fn clone_strings(v: &Vec<String>) -> (r: Vec<String>)
    ensures
        r@ == v@,
{
    let mut r: Vec<String> = Vec::new();
    let mut i: usize = 0;
    while i < v.len()
        invariant
            i <= v.len(),
            r@ =~= v@.take(i as int),
        decreases v.len() - i,
    {
        r.push(v[i].clone());
        i = i + 1;
    }
    proof {
        assert(v@.take(v@.len() as int) =~= v@);
    }
    r
}

fn clone_rooms(v: &Vec<Room>) -> (r: Vec<Room>)
    ensures
        r@ == v@,
{
    let mut r: Vec<Room> = Vec::new();
    let mut i: usize = 0;
    while i < v.len()
        invariant
            i <= v.len(),
            r@ =~= v@.take(i as int),
        decreases v.len() - i,
    {
        r.push(v[i].clone());
        i = i + 1;
    }
    proof {
        assert(v@.take(v@.len() as int) =~= v@);
    }
    r
}

fn clone_teachers(v: &Vec<Teacher>) -> (r: Vec<Teacher>)
    ensures
        r@ == v@,
{
    let mut r: Vec<Teacher> = Vec::new();
    let mut i: usize = 0;
    while i < v.len()
        invariant
            i <= v.len(),
            r@ =~= v@.take(i as int),
        decreases v.len() - i,
    {
        r.push(v[i].clone());
        i = i + 1;
    }
    proof {
        assert(v@.take(v@.len() as int) =~= v@);
    }
    r
}

impl Clone for Subject {
    fn clone(&self) -> (r: Self)
        ensures
            r@ == self@,
    {
        let r = Subject {
            for_field: self.for_field.clone(),
            id: self.id,
            local_id: self.local_id.clone(),
            name: self.name.clone(),
            tags: clone_strings(&self.tags),
        };
        proof {
            assert(r@ =~= self@);
        }
        r
    }
}

impl Clone for Lesson {
    fn clone(&self) -> (r: Self)
        ensures
            r@ == self@,
    {
        let r = Lesson {
            id: self.id,
            nr: self.nr,
            group: self.group.clone(),
            subject: self.subject.clone(),
            status: self.status.clone(),
            rooms: clone_rooms(&self.rooms),
            teachers: clone_teachers(&self.teachers),
            time: self.time.clone(),
        };
        proof {
            assert(r@ =~= self@);
        }
        r
    }
}

} // verus!
