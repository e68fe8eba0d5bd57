//! Grid merging: turn a resolved day into a display-ready hour-by-class grid,
//! and flatten note descriptions into display lines.

use vstd::prelude::*;
use crate::dates::{Date, valid_date, date_string_of, format_date};
use crate::records::{TimeTable, Time, Lesson, Notes, SubjectList, LessonView};

verus! {

/// The final display model: one row per hour from 1 to `last_hour`, one cell
/// per class column, plus flattened note lines.
#[derive(Debug, PartialEq)]
pub struct MergedTimeTable {
    pub date: String,
    pub is_today: bool,
    pub class_names: Vec<String>,
    pub hours: Vec<Hour>,
    pub notes: Vec<String>,
    pub last_hour: i32,
    pub updated: String,
}

/// One grid row: an hour number, its time slot if one was recorded, and per
/// class column the lesson at that hour, if any.
#[derive(Debug, PartialEq)]
pub struct Hour {
    pub hour: i32,
    pub time: Option<Time>,
    pub subjects: Vec<Option<Lesson>>,
}

/// The largest hour number of any lesson in any column, or -1 with none.
pub open spec fn max_nr_lessons(s: Seq<Lesson>) -> int
    decreases s.len(),
{
    if s.len() == 0 {
        -1
    } else {
        let rest = max_nr_lessons(s.drop_last());
        if s.last().nr > rest {
            s.last().nr as int
        } else {
            rest
        }
    }
}

pub open spec fn max_nr_of(cs: Seq<SubjectList>) -> int
    decreases cs.len(),
{
    if cs.len() == 0 {
        -1
    } else {
        let rest = max_nr_of(cs.drop_last());
        let m = max_nr_lessons(cs.last().subjects@);
        if m > rest {
            m
        } else {
            rest
        }
    }
}

proof fn lemma_max_nr_lessons_low(s: Seq<Lesson>)
    ensures
        max_nr_lessons(s) >= -1,
    decreases s.len(),
{
    if s.len() > 0 {
        lemma_max_nr_lessons_low(s.drop_last());
    }
}

proof fn lemma_max_nr_of_low(cs: Seq<SubjectList>)
    ensures
        max_nr_of(cs) >= -1,
    decreases cs.len(),
{
    if cs.len() > 0 {
        lemma_max_nr_of_low(cs.drop_last());
    }
}

/// The first lesson of `s` in hour `h`, as its view.
pub open spec fn first_with_nr(s: Seq<Lesson>, h: i32) -> Option<LessonView>
    decreases s.len(),
{
    if s.len() == 0 {
        None
    } else if s[0].nr == h {
        Some(s[0]@)
    } else {
        first_with_nr(s.drop_first(), h)
    }
}

pub open spec fn opt_view(o: Option<Lesson>) -> Option<LessonView> {
    match o {
        Option::None => Option::None,
        Option::Some(l) => Option::Some(l@),
    }
}

pub open spec fn opt_views_of(s: Seq<Option<Lesson>>) -> Seq<Option<LessonView>> {
    s.map_values(|o: Option<Lesson>| opt_view(o))
}

pub open spec fn strs_of(s: Seq<String>) -> Seq<Seq<char>> {
    s.map_values(|t: String| t@)
}

proof fn lemma_first_with_nr_at(s: Seq<Lesson>, h: i32, j: int)
    requires
        0 <= j <= s.len(),
        forall|q: int| 0 <= q < j ==> (#[trigger] s[q]).nr != h,
        j == s.len() || s[j].nr == h,
    ensures
        first_with_nr(s, h) == if j == s.len() {
            Option::<LessonView>::None
        } else {
            Option::Some(s[j]@)
        },
    decreases s.len(),
{
    if s.len() > 0 && j > 0 {
        let s1 = s.drop_first();
        assert forall|q: int| 0 <= q < j - 1 implies (#[trigger] s1[q]).nr != h by {
            assert(s1[q] == s[q + 1]);
        }
        lemma_first_with_nr_at(s1, h, j - 1);
    }
}

/// The first lesson of the column in hour `h`, cloned for the grid cell.
fn find_lesson(subjects: &Vec<Lesson>, h: i32) -> (r: Option<Lesson>)
    ensures
        opt_view(r) == first_with_nr(subjects@, h),
{
    let mut j: usize = 0;
    while j < subjects.len()
        invariant
            0 <= j <= subjects@.len(),
            forall|q: int| 0 <= q < j ==> (#[trigger] subjects@[q]).nr != h,
        decreases subjects@.len() - j,
    {
        if subjects[j].nr == h {
            proof {
                lemma_first_with_nr_at(subjects@, h, j as int);
            }
            return Some(subjects[j].clone());
        }
        j = j + 1;
    }
    proof {
        lemma_first_with_nr_at(subjects@, h, subjects@.len() as int);
    }
    None
}

/// The label a lesson is displayed under: the subject's name, unless it is
/// missing or 15 bytes or longer, in which case its short `local_id`.
pub open spec fn spec_subject_name(l: Lesson) -> Seq<char> {
    if l.subject.name@.len() == 0 || vstd::utf8::encode_utf8(l.subject.name@).len() as usize
        >= 15 {
        l.subject.local_id@
    } else {
        l.subject.name@
    }
}

pub fn subject_name(subject: &Lesson) -> (r: String)
    ensures
        r@ == spec_subject_name(*subject),
{
    if subject.subject.name.as_str().is_empty() || subject.subject.name.as_str().len() >= 15 {
        subject.subject.local_id.clone()
    } else {
        subject.subject.name.clone()
    }
}

/// The characters stripped from the front of a note line.
pub open spec fn is_dash(c: char) -> bool {
    let u = c as u32;
    u == 0x2D || u == 0x2013 || u == 0x2014
}

/// The Unicode white-space characters, as `trim` removes them.
pub open spec fn is_space_char(c: char) -> bool {
    let u = c as u32;
    ||| u == 0x09
    ||| u == 0x0A
    ||| u == 0x0B
    ||| u == 0x0C
    ||| u == 0x0D
    ||| u == 0x20
    ||| u == 0x85
    ||| u == 0xA0
    ||| u == 0x1680
    ||| (0x2000 <= u && u <= 0x200A)
    ||| u == 0x2028
    ||| u == 0x2029
    ||| u == 0x202F
    ||| u == 0x205F
    ||| u == 0x3000
}

fn is_dash_c(c: char) -> (b: bool)
    ensures
        b == is_dash(c),
{
    let u = c as u32;
    u == 0x2D || u == 0x2013 || u == 0x2014
}

fn is_space(c: char) -> (b: bool)
    ensures
        b == is_space_char(c),
{
    let u = c as u32;
    u == 0x09 || u == 0x0A || u == 0x0B || u == 0x0C || u == 0x0D || u == 0x20 || u == 0x85 || u
        == 0xA0 || u == 0x1680 || (0x2000 <= u && u <= 0x200A) || u == 0x2028 || u == 0x2029 || u
        == 0x202F || u == 0x205F || u == 0x3000
}

pub open spec fn leading_dashes(s: Seq<char>) -> int
    decreases s.len(),
{
    if s.len() == 0 || !is_dash(s[0]) {
        0
    } else {
        1 + leading_dashes(s.drop_first())
    }
}

pub open spec fn leading_spaces(s: Seq<char>) -> int
    decreases s.len(),
{
    if s.len() == 0 || !is_space_char(s[0]) {
        0
    } else {
        1 + leading_spaces(s.drop_first())
    }
}

pub open spec fn trailing_spaces(s: Seq<char>) -> int
    decreases s.len(),
{
    if s.len() == 0 || !is_space_char(s.last()) {
        0
    } else {
        1 + trailing_spaces(s.drop_last())
    }
}

/// A note line cleaned for display: a leading run of dashes stripped, then
/// surrounding white space trimmed.
pub open spec fn cleaned_line(s: Seq<char>) -> Seq<char> {
    let s1 = s.skip(leading_dashes(s));
    let s2 = s1.skip(leading_spaces(s1));
    s2.take(s2.len() - trailing_spaces(s2))
}

/// Index of the first line break, or -1.
pub open spec fn first_nl(s: Seq<char>) -> int
    decreases s.len(),
{
    if s.len() == 0 {
        -1
    } else if s[0] == '\n' {
        0
    } else {
        let r = first_nl(s.drop_first());
        if r == -1 {
            -1
        } else {
            r + 1
        }
    }
}

/// A description split at line breaks.
pub open spec fn note_lines(s: Seq<char>) -> Seq<Seq<char>>
    decreases s.len(),
{
    let i = first_nl(s);
    if i < 0 || i >= s.len() {
        seq![s]
    } else {
        seq![s.take(i)] + note_lines(s.skip(i + 1))
    }
}

/// The cleaned lines, blank ones dropped, order kept.
pub open spec fn cleaned_lines(lines: Seq<Seq<char>>) -> Seq<Seq<char>>
    decreases lines.len(),
{
    if lines.len() == 0 {
        Seq::empty()
    } else {
        let rest = cleaned_lines(lines.drop_last());
        let c = cleaned_line(lines.last());
        if c.len() > 0 {
            rest + seq![c]
        } else {
            rest
        }
    }
}

/// The display lines of one note description.
pub open spec fn desc_flat(s: Seq<char>) -> Seq<Seq<char>> {
    cleaned_lines(note_lines(s))
}

/// The display lines of all notes, in order within and across notes.
pub open spec fn notes_flat(notes: Seq<Notes>) -> Seq<Seq<char>>
    decreases notes.len(),
{
    if notes.len() == 0 {
        Seq::empty()
    } else {
        notes_flat(notes.drop_last()) + desc_flat(notes.last().description@)
    }
}

proof fn lemma_leading_dashes_at(s: Seq<char>, j: int)
    requires
        0 <= j <= s.len(),
        forall|q: int| 0 <= q < j ==> is_dash(#[trigger] s[q]),
        j == s.len() || !is_dash(s[j]),
    ensures
        leading_dashes(s) == j,
    decreases s.len(),
{
    if j > 0 {
        let s1 = s.drop_first();
        assert forall|q: int| 0 <= q < j - 1 implies is_dash(#[trigger] s1[q]) by {
            assert(s1[q] == s[q + 1]);
        }
        lemma_leading_dashes_at(s1, j - 1);
    }
}

proof fn lemma_leading_spaces_at(s: Seq<char>, j: int)
    requires
        0 <= j <= s.len(),
        forall|q: int| 0 <= q < j ==> is_space_char(#[trigger] s[q]),
        j == s.len() || !is_space_char(s[j]),
    ensures
        leading_spaces(s) == j,
    decreases s.len(),
{
    if j > 0 {
        let s1 = s.drop_first();
        assert forall|q: int| 0 <= q < j - 1 implies is_space_char(#[trigger] s1[q]) by {
            assert(s1[q] == s[q + 1]);
        }
        lemma_leading_spaces_at(s1, j - 1);
    }
}

proof fn lemma_trailing_spaces_at(s: Seq<char>, j: int)
    requires
        0 <= j <= s.len(),
        forall|q: int| j <= q < s.len() ==> is_space_char(#[trigger] s[q]),
        j == 0 || !is_space_char(s[j - 1]),
    ensures
        trailing_spaces(s) == s.len() - j,
    decreases s.len(),
{
    if j < s.len() {
        let s1 = s.drop_last();
        assert forall|q: int| j <= q < s1.len() implies is_space_char(#[trigger] s1[q]) by {
            assert(s1[q] == s[q]);
        }
        lemma_trailing_spaces_at(s1, j);
    }
}

proof fn lemma_first_nl_at(s: Seq<char>, j: int)
    requires
        0 <= j <= s.len(),
        forall|q: int| 0 <= q < j ==> #[trigger] s[q] != '\n',
        j == s.len() || s[j] == '\n',
    ensures
        first_nl(s) == if j == s.len() {
            -1int
        } else {
            j
        },
    decreases s.len(),
{
    if s.len() > 0 && j > 0 {
        let s1 = s.drop_first();
        assert forall|q: int| 0 <= q < j - 1 implies #[trigger] s1[q] != '\n' by {
            assert(s1[q] == s[q + 1]);
        }
        lemma_first_nl_at(s1, j - 1);
    }
}

proof fn lemma_note_lines_len(s: Seq<char>)
    ensures
        note_lines(s).len() >= 1,
{
}

/// Bounds of the cleaned text of the line `[pos, e)` of `desc`: leading
/// dashes, then surrounding white space, stripped.
fn clean_segment(desc: &str, pos: usize, e: usize) -> (r: (usize, usize))
    requires
        pos <= e <= desc@.len(),
    ensures
        pos <= r.0 <= r.1 <= e,
        cleaned_line(desc@.subrange(pos as int, e as int)) == desc@.subrange(
            r.0 as int,
            r.1 as int,
        ),
{
    let ghost line = desc@.subrange(pos as int, e as int);
    // strip leading dashes
    let mut a: usize = pos;
    let mut adone: bool = false;
    while a < e && !adone
        invariant
            pos <= a <= e <= desc@.len(),
            forall|q: int| pos <= q < a ==> is_dash(#[trigger] desc@[q]),
            adone ==> a < e && !is_dash(desc@[a as int]),
        decreases e - a, (if adone {
            0int
        } else {
            1int
        }),
    {
        if is_dash_c(desc.get_char(a)) {
            a = a + 1;
        } else {
            adone = true;
        }
    }
    // strip leading white space
    let mut b: usize = a;
    let mut bdone: bool = false;
    while b < e && !bdone
        invariant
            pos <= a <= b <= e <= desc@.len(),
            forall|q: int| a <= q < b ==> is_space_char(#[trigger] desc@[q]),
            bdone ==> b < e && !is_space_char(desc@[b as int]),
        decreases e - b, (if bdone {
            0int
        } else {
            1int
        }),
    {
        if is_space(desc.get_char(b)) {
            b = b + 1;
        } else {
            bdone = true;
        }
    }
    // strip trailing white space
    let mut f: usize = e;
    let mut fdone: bool = false;
    while f > b && !fdone
        invariant
            b <= f <= e <= desc@.len(),
            forall|q: int| f <= q < e ==> is_space_char(#[trigger] desc@[q]),
            fdone ==> f > b && !is_space_char(desc@[f - 1]),
        decreases f - b, (if fdone {
            0int
        } else {
            1int
        }),
    {
        if is_space(desc.get_char(f - 1)) {
            f = f - 1;
        } else {
            fdone = true;
        }
    }
    proof {
        let s1 = line.skip(a - pos);
        let s2 = line.skip(a - pos).skip(b - a);
        assert forall|q: int| 0 <= q < a - pos implies is_dash(#[trigger] line[q]) by {
            assert(line[q] == desc@[pos + q]);
        }
        if a < e {
            assert(line[a - pos] == desc@[a as int]);
        }
        lemma_leading_dashes_at(line, a - pos);
        assert(s1 =~= desc@.subrange(a as int, e as int));
        assert forall|q: int| 0 <= q < b - a implies is_space_char(#[trigger] s1[q]) by {
            assert(s1[q] == desc@[a + q]);
        }
        if b < e {
            assert(s1[b - a] == desc@[b as int]);
        }
        lemma_leading_spaces_at(s1, b - a);
        assert(s2 =~= desc@.subrange(b as int, e as int));
        assert forall|q: int| f - b <= q < s2.len() implies is_space_char(#[trigger] s2[q]) by {
            assert(s2[q] == desc@[b + q]);
        }
        if f > b {
            assert(s2[f - b - 1] == desc@[f - 1]);
        }
        lemma_trailing_spaces_at(s2, f - b);
        assert(cleaned_line(line) =~= desc@.subrange(b as int, f as int));
    }
    (b, f)
}

/// Appends the display lines of one note description: split at line breaks,
/// leading dashes stripped, white space trimmed, blank lines dropped.
#[verifier::loop_isolation(false)]
#[verifier::rlimit(60)]
fn flatten_description(desc: &str, lines_out: &mut Vec<String>)
    ensures
        strs_of(final(lines_out)@) == strs_of(old(lines_out)@) + desc_flat(desc@),
{
    let len = desc.unicode_len();
    let ghost full = note_lines(desc@);
    let ghost base = strs_of(lines_out@);
    let mut pos: usize = 0;
    let ghost mut t: int = 0;
    let mut finished: bool = false;
    proof {
        assert(desc@.skip(0) =~= desc@);
        assert(cleaned_lines(full.take(0)) =~= Seq::<Seq<char>>::empty());
        assert(strs_of(lines_out@) =~= base + cleaned_lines(full.take(0)));
        lemma_note_lines_len(desc@);
    }
    while !finished
        invariant
            0 <= pos <= len,
            0 <= t <= full.len(),
            !finished ==> note_lines(desc@.skip(pos as int)) == full.skip(t),
            !finished ==> t < full.len(),
            finished ==> t == full.len(),
            strs_of(lines_out@) == base + cleaned_lines(full.take(t)),
        decreases len - pos, (if finished {
            0int
        } else {
            1int
        }),
    {
        // find the end of the current line
        let mut e: usize = pos;
        let mut nl_found: bool = false;
        while e < len && !nl_found
            invariant
                pos <= e <= len,
                forall|q: int| pos <= q < e ==> #[trigger] desc@[q] != '\n',
                nl_found ==> e < len && desc@[e as int] == '\n',
            decreases len - e, (if nl_found {
                0int
            } else {
                1int
            }),
        {
            if desc.get_char(e) == '\n' {
                nl_found = true;
            } else {
                e = e + 1;
            }
        }
        let ghost rem = desc@.skip(pos as int);
        let ghost line = desc@.subrange(pos as int, e as int);
        proof {
            assert forall|q: int| 0 <= q < e - pos implies #[trigger] rem[q] != '\n' by {
                assert(rem[q] == desc@[pos + q]);
            }
            if nl_found {
                assert(rem[e - pos] == desc@[e as int]);
                lemma_first_nl_at(rem, e - pos);
                assert(note_lines(rem) == seq![rem.take(e - pos)] + note_lines(
                    rem.skip(e - pos + 1),
                ));
            } else {
                lemma_first_nl_at(rem, rem.len() as int);
                assert(note_lines(rem) == seq![rem]);
            }
            assert(rem.take(e - pos) =~= line);
            assert(rem =~= desc@.subrange(pos as int, len as int));
            assert(full.skip(t)[0] == full[t]);
            assert(full[t] == line) by {
                if nl_found {
                } else {
                    assert(line =~= rem);
                }
            }
        }
        let (b, f) = clean_segment(desc, pos, e);
        proof {
            assert(full.take(t + 1).drop_last() =~= full.take(t));
            assert(full.take(t + 1).last() == full[t]);
        }
        if f > b {
            let piece = desc.substring_char(b, f);
            let ghost before = lines_out@;
            lines_out.push(piece.to_owned());
            proof {
                assert(strs_of(lines_out@) =~= strs_of(before).push(piece@));
                assert(cleaned_lines(full.take(t + 1)) == cleaned_lines(full.take(t)) + seq![
                    cleaned_line(line),
                ]);
                assert(strs_of(lines_out@) =~= base + cleaned_lines(full.take(t + 1)));
            }
        } else {
            proof {
                assert(cleaned_line(line).len() == 0);
                assert(cleaned_lines(full.take(t + 1)) == cleaned_lines(full.take(t)));
            }
        }
        proof {
            if nl_found {
                assert(rem.skip(e - pos + 1) =~= desc@.skip(e + 1));
                assert(full.skip(t).drop_first() =~= full.skip(t + 1));
            } else {
                assert(full.skip(t).drop_first() =~= full.skip(t + 1));
                assert(full.skip(t + 1) =~= Seq::<Seq<char>>::empty());
            }
            t = t + 1;
        }
        if nl_found {
            pos = e + 1;
        } else {
            finished = true;
        }
    }
    proof {
        assert(full.take(full.len() as int) =~= full);
    }
}

/// What one grid row must hold for hour `h`.
pub open spec fn row_ok(row: Hour, h: i32, tt: TimeTable) -> bool {
    &&& row.hour == h
    &&& row.time == (if tt.times@.contains_key(h) {
        Option::Some(tt.times@[h])
    } else {
        Option::<Time>::None
    })
    &&& row.subjects@.len() == tt.classes@.len()
    &&& (forall|c: int|
        0 <= c < row.subjects@.len() ==> opt_view(#[trigger] row.subjects@[c]) == first_with_nr(
            tt.classes@[c].subjects@,
            h,
        ))
}

/// What `merge_subject_lists` guarantees about the grid it builds.
pub open spec fn merge_post(
    date_str: String,
    tt: TimeTable,
    today: Date,
    updated: String,
    r: MergedTimeTable,
) -> bool {
    &&& r.date == date_str
    &&& r.updated == updated
    &&& r.is_today == (date_str@ == date_string_of(today))
    &&& r.last_hour as int == max_nr_of(tt.classes@)
    &&& r.class_names@ == tt.classes@.map_values(|c: SubjectList| c.class_name)
    &&& r.hours@.len() == (if max_nr_of(tt.classes@) >= 1 {
        max_nr_of(tt.classes@)
    } else {
        0
    })
    &&& (forall|h: int|
        0 <= h < r.hours@.len() ==> row_ok(#[trigger] r.hours@[h], (h + 1) as i32, tt))
    &&& strs_of(r.notes@) == notes_flat(tt.notes@)
}

/// Builds the display grid of a resolved day: `is_today` against the caller's
/// current date, rows for hours 1 through the largest hour number (none when
/// no lesson exists), per row the recorded time slot and each column's lesson
/// at that hour, and the flattened note lines. `updated` is the caller's
/// resolution timestamp, carried through unchanged.
#[verifier::loop_isolation(false)]
pub fn merge_subject_lists(
    date_str: String,
    timetable: TimeTable,
    today: &Date,
    updated: String,
) -> (r: MergedTimeTable)
    requires
        valid_date(*today),
    ensures
        merge_post(date_str, timetable, *today, updated, r),
{
    broadcast use vstd::std_specs::hash::group_hash_axioms;

    let today_str = format_date(today);
    let is_today = date_str == today_str;

    // the last hour: the largest hour number of any lesson anywhere
    let mut last_hour: i32 = -1;
    let mut k: usize = 0;
    let ghost cs = timetable.classes@;
    proof {
        assert(cs.take(0) =~= Seq::<SubjectList>::empty());
    }
    while k < timetable.classes.len()
        invariant
            0 <= k <= cs.len(),
            last_hour as int == max_nr_of(cs.take(k as int)),
        decreases cs.len() - k,
    {
        let subs = &timetable.classes[k].subjects;
        let mut j: usize = 0;
        proof {
            assert(subs@.take(0) =~= Seq::<Lesson>::empty());
            lemma_max_nr_of_low(cs.take(k as int));
        }
        while j < subs.len()
            invariant
                0 <= j <= subs@.len(),
                last_hour as int == ({
                    let x = max_nr_of(cs.take(k as int));
                    let y = max_nr_lessons(subs@.take(j as int));
                    if y > x {
                        y
                    } else {
                        x
                    }
                }),
        decreases subs@.len() - j,
        {
            proof {
                assert(subs@.take(j + 1).drop_last() =~= subs@.take(j as int));
                assert(subs@.take(j + 1).last() == subs@[j as int]);
            }
            if subs[j].nr > last_hour {
                last_hour = subs[j].nr;
            }
            j = j + 1;
        }
        proof {
            assert(subs@.take(subs@.len() as int) =~= subs@);
            assert(cs.take(k + 1).drop_last() =~= cs.take(k as int));
            assert(cs.take(k + 1).last() == cs[k as int]);
        }
        k = k + 1;
    }
    proof {
        assert(cs.take(cs.len() as int) =~= cs);
    }

    // column headers, in column order
    let mut class_names: Vec<String> = Vec::new();
    let mut k2: usize = 0;
    while k2 < timetable.classes.len()
        invariant
            0 <= k2 <= cs.len(),
            class_names@ =~= cs.take(k2 as int).map_values(|c: SubjectList| c.class_name),
        decreases cs.len() - k2,
    {
        class_names.push(timetable.classes[k2].class_name.clone());
        proof {
            assert(class_names@ =~= cs.take(k2 + 1).map_values(|c: SubjectList| c.class_name));
        }
        k2 = k2 + 1;
    }
    proof {
        assert(cs.take(cs.len() as int) =~= cs);
    }

    // one row per hour
    let n_rows: usize = if last_hour < 1 {
        0
    } else {
        last_hour as usize
    };
    let mut hours: Vec<Hour> = Vec::new();
    let mut idx: usize = 0;
    while idx < n_rows
        invariant
            0 <= idx <= n_rows,
            hours@.len() == idx,
            forall|h: int| 0 <= h < idx ==> row_ok(#[trigger] hours@[h], (h + 1) as i32, timetable),
        decreases n_rows - idx,
    {
        let h: i32 = (idx as i32) + 1;
        let slot: Option<Time> = match timetable.times.get(&h) {
            Option::Some(t) => Option::Some(t.clone()),
            Option::None => Option::None,
        };
        let mut cells: Vec<Option<Lesson>> = Vec::new();
        let mut c: usize = 0;
        while c < timetable.classes.len()
            invariant
                0 <= c <= cs.len(),
                cells@.len() == c,
                forall|q: int|
                    0 <= q < c ==> opt_view(#[trigger] cells@[q]) == first_with_nr(
                        cs[q].subjects@,
                        h,
                    ),
            decreases cs.len() - c,
        {
            cells.push(find_lesson(&timetable.classes[c].subjects, h));
            c = c + 1;
        }
        hours.push(Hour { hour: h, time: slot, subjects: cells });
        idx = idx + 1;
    }

    // note lines
    let mut note_texts: Vec<String> = Vec::new();
    let mut n: usize = 0;
    let ghost ns = timetable.notes@;
    proof {
        assert(ns.take(0) =~= Seq::<Notes>::empty());
        assert(strs_of(note_texts@) =~= notes_flat(ns.take(0)));
    }
    while n < timetable.notes.len()
        invariant
            0 <= n <= ns.len(),
            strs_of(note_texts@) == notes_flat(ns.take(n as int)),
        decreases ns.len() - n,
    {
        flatten_description(timetable.notes[n].description.as_str(), &mut note_texts);
        proof {
            assert(ns.take(n + 1).drop_last() =~= ns.take(n as int));
            assert(ns.take(n + 1).last() == ns[n as int]);
        }
        n = n + 1;
    }
    proof {
        assert(ns.take(ns.len() as int) =~= ns);
    }

    MergedTimeTable {
        date: date_str,
        is_today,
        class_names,
        hours,
        notes: note_texts,
        last_hour,
        updated,
    }
}

/// Merging the same resolved day twice, with the clock frozen (the same
/// "today" and the same timestamp), yields grids that agree in every field;
/// strings agree character for character.
pub proof fn lemma_merge_deterministic(
    date_str: String,
    tt: TimeTable,
    today: Date,
    updated: String,
    r1: MergedTimeTable,
    r2: MergedTimeTable,
)
    requires
        merge_post(date_str, tt, today, updated, r1),
        merge_post(date_str, tt, today, updated, r2),
    ensures
        r1.date == r2.date,
        r1.is_today == r2.is_today,
        r1.class_names@ == r2.class_names@,
        r1.last_hour == r2.last_hour,
        r1.updated == r2.updated,
        strs_of(r1.notes@) == strs_of(r2.notes@),
        r1.hours@.len() == r2.hours@.len(),
        forall|h: int|
            0 <= h < r1.hours@.len() ==> (#[trigger] r1.hours@[h]).hour == r2.hours@[h].hour
                && r1.hours@[h].time == r2.hours@[h].time && opt_views_of(r1.hours@[h].subjects@)
                == opt_views_of(r2.hours@[h].subjects@),
{
    assert forall|h: int|
        0 <= h < r1.hours@.len() implies (#[trigger] r1.hours@[h]).hour == r2.hours@[h].hour
        && r1.hours@[h].time == r2.hours@[h].time && opt_views_of(r1.hours@[h].subjects@)
        == opt_views_of(r2.hours@[h].subjects@) by {
        assert(row_ok(r1.hours@[h], (h + 1) as i32, tt));
        assert(row_ok(r2.hours@[h], (h + 1) as i32, tt));
        assert(opt_views_of(r1.hours@[h].subjects@) =~= opt_views_of(r2.hours@[h].subjects@));
    }
}

} // verus!
