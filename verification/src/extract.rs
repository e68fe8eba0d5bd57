//! Day extraction: locate a day record inside a week payload, keep its valid
//! lessons, group them per class level, derive class names by the
//! common-prefix rule, and record the first-seen time slot of every hour.

use vstd::prelude::*;
use vstd::seq_lib::*;
use std::collections::HashMap;
use crate::dates::{Date, valid_date, format_date, date_string_of};
use crate::records::{WeekJournalReply, Day, Notes, Lesson, Time, SubjectList, LessonView};

verus! {

/// A lesson is kept iff its level and hour number are present (non-zero).
pub open spec fn lesson_ok(l: Lesson) -> bool {
    l.group.level_id != 0 && l.nr != 0
}

/// Index of the first day record whose date string equals `ds`, or -1.
pub open spec fn first_day_match(days: Seq<Day>, ds: Seq<char>) -> int
    decreases days.len(),
{
    if days.len() == 0 {
        -1
    } else if days[0].date@ == ds {
        0
    } else {
        let r = first_day_match(days.drop_first(), ds);
        if r == -1 {
            -1
        } else {
            r + 1
        }
    }
}

pub proof fn lemma_first_day_match(days: Seq<Day>, ds: Seq<char>)
    ensures
        first_day_match(days, ds) == -1 ==> forall|j: int|
            0 <= j < days.len() ==> (#[trigger] days[j]).date@ != ds,
        first_day_match(days, ds) != -1 ==> 0 <= first_day_match(days, ds) < days.len()
            && days[first_day_match(days, ds)].date@ == ds,
        first_day_match(days, ds) != -1 ==> forall|j: int|
            0 <= j < first_day_match(days, ds) ==> (#[trigger] days[j]).date@ != ds,
    decreases days.len(),
{
    if days.len() > 0 && days[0].date@ != ds {
        lemma_first_day_match(days.drop_first(), ds);
        assert forall|j: int| 0 <= j < days.len() && first_day_match(days, ds) == -1 implies (
        #[trigger] days[j]).date@ != ds by {
            if j > 0 {
                assert(days.drop_first()[j - 1] == days[j]);
            }
        }
        if first_day_match(days, ds) != -1 {
            let i = first_day_match(days, ds);
            assert(days.drop_first()[i - 1] == days[i]);
            assert forall|j: int| 0 <= j < i implies (#[trigger] days[j]).date@ != ds by {
                if j > 0 {
                    assert(days.drop_first()[j - 1] == days[j]);
                }
            }
        }
    }
}

/// The lessons of the day record matched by `ds`, or none.
pub open spec fn day_lessons(days: Seq<Day>, ds: Seq<char>) -> Seq<Lesson> {
    if first_day_match(days, ds) == -1 {
        Seq::empty()
    } else {
        days[first_day_match(days, ds)].lessons@
    }
}

/// The notes of the day record matched by `ds`, or none.
pub open spec fn day_notes(days: Seq<Day>, ds: Seq<char>) -> Seq<Notes> {
    if first_day_match(days, ds) == -1 {
        Seq::empty()
    } else {
        days[first_day_match(days, ds)].notes@
    }
}

/// The valid lessons of `s`, in order.
pub open spec fn kept_of(s: Seq<Lesson>) -> Seq<Lesson>
    decreases s.len(),
{
    if s.len() == 0 {
        Seq::empty()
    } else {
        let r = kept_of(s.drop_last());
        if lesson_ok(s.last()) {
            r.push(s.last())
        } else {
            r
        }
    }
}

/// The distinct level ids of the valid lessons of `s`, in first-seen order.
pub open spec fn levels_of(s: Seq<Lesson>) -> Seq<i32>
    decreases s.len(),
{
    if s.len() == 0 {
        Seq::empty()
    } else {
        let r = levels_of(s.drop_last());
        if lesson_ok(s.last()) && !r.contains(s.last().group.level_id) {
            r.push(s.last().group.level_id)
        } else {
            r
        }
    }
}

/// The valid lessons of `s` with level `lv`, in order.
pub open spec fn level_lessons_of(s: Seq<Lesson>, lv: i32) -> Seq<Lesson>
    decreases s.len(),
{
    if s.len() == 0 {
        Seq::empty()
    } else {
        let r = level_lessons_of(s.drop_last(), lv);
        if lesson_ok(s.last()) && s.last().group.level_id == lv {
            r.push(s.last())
        } else {
            r
        }
    }
}

/// The character-position common prefix of two strings.
pub open spec fn common_prefix(a: Seq<char>, b: Seq<char>) -> Seq<char>
    decreases a.len(),
{
    if a.len() == 0 || b.len() == 0 || a[0] != b[0] {
        Seq::empty()
    } else {
        seq![a[0]] + common_prefix(a.drop_first(), b.drop_first())
    }
}

/// The class name of level `lv` after processing `s`: the first valid lesson's
/// `local_id`, folded with each later one by the common-prefix rule.
pub open spec fn class_name_of(s: Seq<Lesson>, lv: i32) -> Seq<char>
    decreases s.len(),
{
    if s.len() == 0 {
        Seq::empty()
    } else {
        let rest = s.drop_last();
        let l = s.last();
        if lesson_ok(l) && l.group.level_id == lv {
            if level_lessons_of(rest, lv).len() == 0 {
                l.group.local_id@
            } else {
                common_prefix(class_name_of(rest, lv), l.group.local_id@)
            }
        } else {
            class_name_of(rest, lv)
        }
    }
}

/// Hour number to time slot, first writer wins over the valid lessons of `s`.
pub open spec fn times_map_of(s: Seq<Lesson>) -> Map<i32, Time>
    decreases s.len(),
{
    if s.len() == 0 {
        Map::empty()
    } else {
        let m = times_map_of(s.drop_last());
        let l = s.last();
        if lesson_ok(l) && !m.contains_key(l.nr) {
            m.insert(l.nr, l.time)
        } else {
            m
        }
    }
}

pub open spec fn views_of(s: Seq<Lesson>) -> Seq<LessonView> {
    s.map_values(|l: Lesson| l@)
}

pub open spec fn sorted_by_nr(s: Seq<Lesson>) -> bool {
    forall|i: int, j: int| 0 <= i <= j < s.len() ==> s[i].nr <= s[j].nr
}

/// How each fold above grows when one more lesson is processed.
pub proof fn lemma_folds_push(s: Seq<Lesson>, l: Lesson)
    ensures
        kept_of(s.push(l)) == if lesson_ok(l) {
            kept_of(s).push(l)
        } else {
            kept_of(s)
        },
        levels_of(s.push(l)) == if lesson_ok(l) && !levels_of(s).contains(l.group.level_id) {
            levels_of(s).push(l.group.level_id)
        } else {
            levels_of(s)
        },
        times_map_of(s.push(l)) == if lesson_ok(l) && !times_map_of(s).contains_key(l.nr) {
            times_map_of(s).insert(l.nr, l.time)
        } else {
            times_map_of(s)
        },
        forall|lv: i32|
            #[trigger] level_lessons_of(s.push(l), lv) == if lesson_ok(l) && l.group.level_id
                == lv {
                level_lessons_of(s, lv).push(l)
            } else {
                level_lessons_of(s, lv)
            },
        forall|lv: i32|
            #[trigger] class_name_of(s.push(l), lv) == if lesson_ok(l) && l.group.level_id == lv {
                if level_lessons_of(s, lv).len() == 0 {
                    l.group.local_id@
                } else {
                    common_prefix(class_name_of(s, lv), l.group.local_id@)
                }
            } else {
                class_name_of(s, lv)
            },
{
    assert(s.push(l).drop_last() =~= s);
    assert(s.push(l).last() == l);
}

/// A level id occurs in `levels_of` exactly when it has lessons, and there is
/// some level exactly when there is some valid lesson.
pub proof fn lemma_levels_lessons(s: Seq<Lesson>)
    ensures
        forall|lv: i32| levels_of(s).contains(lv) <==> #[trigger] level_lessons_of(s, lv).len()
            > 0,
        kept_of(s).len() > 0 <==> levels_of(s).len() > 0,
    decreases s.len(),
{
    if s.len() > 0 {
        lemma_levels_lessons(s.drop_last());
        let r = levels_of(s.drop_last());
        let t = levels_of(s);
        assert forall|lv: i32| t.contains(lv) implies #[trigger] level_lessons_of(s, lv).len()
            > 0 by {
            let prev = level_lessons_of(s.drop_last(), lv);
            let w = choose|w: int| 0 <= w < t.len() && t[w] == lv;
            if w < r.len() {
                assert(r[w] == lv);
                assert(r.contains(lv));
                assert(prev.len() > 0);
            } else {
                assert(lesson_ok(s.last()) && s.last().group.level_id == lv);
            }
        }
        assert forall|lv: i32| #[trigger] level_lessons_of(s, lv).len() > 0 implies t.contains(
            lv,
        ) by {
            if level_lessons_of(s.drop_last(), lv).len() > 0 {
                let w = choose|w: int| 0 <= w < r.len() && r[w] == lv;
                if t.len() == r.len() {
                    assert(t.contains(lv)) by { assert(t[w] == lv) }
                } else {
                    assert(t[w] == lv);
                }
            } else {
                assert(lesson_ok(s.last()) && s.last().group.level_id == lv);
                if r.contains(lv) {
                    let w = choose|w: int| 0 <= w < r.len() && r[w] == lv;
                    assert(t[w] == lv);
                } else {
                    assert(t[t.len() - 1] == lv);
                }
            }
        }
    }
}

/// The level ids produced by `levels_of` are pairwise distinct.
pub proof fn lemma_levels_distinct(s: Seq<Lesson>)
    ensures
        forall|i: int, j: int|
            0 <= i < j < levels_of(s).len() ==> #[trigger] levels_of(s)[i] != #[trigger] levels_of(
                s,
            )[j],
    decreases s.len(),
{
    if s.len() > 0 {
        lemma_levels_distinct(s.drop_last());
        let r = levels_of(s.drop_last());
        let t = levels_of(s);
        assert forall|i: int, j: int| 0 <= i < j < t.len() implies #[trigger] t[i] != #[trigger] t[j] by {
            if j < r.len() {
            } else if t.len() == r.len() + 1 {
                assert(t[i] == r[i]);
                assert(!r.contains(t[j]));
            }
        }
    }
}

proof fn lemma_common_prefix_take(a: Seq<char>, b: Seq<char>, j: int)
    requires
        0 <= j <= a.len(),
        j <= b.len(),
        forall|i: int| 0 <= i < j ==> a[i] == b[i],
        j == a.len() || j == b.len() || a[j] != b[j],
    ensures
        common_prefix(a, b) == a.take(j),
    decreases a.len(),
{
    if j == 0 {
        assert(a.take(0) =~= Seq::<char>::empty());
    } else {
        assert(a[0] == b[0]);
        let a1 = a.drop_first();
        let b1 = b.drop_first();
        assert forall|i: int| 0 <= i < j - 1 implies a1[i] == b1[i] by {
            assert(a[i + 1] == b[i + 1]);
        }
        lemma_common_prefix_take(a1, b1, j - 1);
        assert(a.take(j) =~= seq![a[0]] + a1.take(j - 1));
    }
}

/// The longest common character-position prefix of two strings, as the class
/// naming rule uses it.
fn common_prefix_str(a: &str, b: &str) -> (r: String)
    ensures
        r@ == common_prefix(a@, b@),
{
    let alen = a.unicode_len();
    let blen = b.unicode_len();
    let limit: usize = if alen < blen {
        alen
    } else {
        blen
    };
    let mut j: usize = 0;
    let mut done: bool = false;
    while j < limit && !done
        invariant
            0 <= j <= limit,
            limit <= alen,
            limit <= blen,
            alen == a@.len(),
            blen == b@.len(),
            forall|i: int| 0 <= i < j ==> a@[i] == b@[i],
            done ==> j < limit && a@[j as int] != b@[j as int],
        decreases limit - j, (if done { 0int } else { 1int }),
    {
        if a.get_char(j) == b.get_char(j) {
            j = j + 1;
        } else {
            done = true;
        }
    }
    proof {
        lemma_common_prefix_take(a@, b@, j as int);
    }
    let p = a.substring_char(0, j);
    p.to_owned()
}

fn clone_notes(v: &Vec<Notes>) -> (r: Vec<Notes>)
    ensures
        r@ == v@,
{
    let mut r: Vec<Notes> = Vec::new();
    let mut i: usize = 0;
    while i < v.len()
        invariant
            i <= v.len(),
            r@ =~= v@.take(i as int),
        decreases v.len() - i,
    {
        r.push(v[i].clone());
        i = i + 1;
    }
    proof {
        assert(v@.take(v@.len() as int) =~= v@);
    }
    r
}

/// Stable insertion sort by hour number; keeps exactly the given lessons.
fn sort_lessons(v: Vec<Lesson>) -> (r: Vec<Lesson>)
    ensures
        sorted_by_nr(r@),
        views_of(r@).to_multiset() == views_of(v@).to_multiset(),
{
    let ghost orig = v@;
    let mut v = v;
    let mut out: Vec<Lesson> = Vec::new();
    let ghost done: int = 0;
    proof {
        assert(views_of(out@) =~= views_of(orig.take(0)));
    }
    while v.len() > 0
        invariant
            0 <= done <= orig.len(),
            v@ =~= orig.skip(done),
            sorted_by_nr(out@),
            views_of(out@).to_multiset() == views_of(orig.take(done)).to_multiset(),
        decreases v@.len(),
    {
        let x = v.remove(0);
        proof {
            assert(orig.skip(done).drop_first() =~= orig.skip(done + 1));
            assert(x == orig[done]);
        }
        let mut p: usize = 0;
        while p < out.len() && out[p].nr <= x.nr
            invariant
                0 <= p <= out@.len(),
                forall|q: int| 0 <= q < p ==> (#[trigger] out@[q]).nr <= x.nr,
            decreases out@.len() - p,
        {
            p = p + 1;
        }
        let ghost old_out = out@;
        out.insert(p, x);
        proof {
            assert(out@ =~= old_out.insert(p as int, x));
            assert(views_of(out@) =~= views_of(old_out).insert(p as int, x@));
            assert(views_of(orig.take(done + 1)) =~= views_of(orig.take(done)).push(x@));
            assert(views_of(old_out).len() == old_out.len());
            vstd::seq_lib::to_multiset_insert(views_of(old_out), p as int, x@);
            vstd::seq_lib::to_multiset_build(views_of(orig.take(done)), x@);
            assert(views_of(out@).to_multiset() == views_of(orig.take(done + 1)).to_multiset());
            assert forall|i: int, j: int| 0 <= i <= j < out@.len() implies out@[i].nr
                <= out@[j].nr by {
                if i < p && j == p {
                } else if i == p && j > p {
                    assert(old_out[p as int].nr > x.nr);
                    assert(old_out[j - 1].nr >= old_out[p as int].nr);
                } else if i < p && j > p {
                    assert(old_out[i].nr <= old_out[j - 1].nr);
                }
            }
            done = done + 1;
        }
    }
    proof {
        assert(orig.take(orig.len() as int) =~= orig);
    }
    out
}

/// Whether any column holds at least one lesson: the mark of a school day.
pub open spec fn spec_has_lessons(classes: Seq<SubjectList>) -> bool {
    exists|k: int| 0 <= k < classes.len() && (#[trigger] classes[k]).subjects@.len() > 0
}

/// Whether the day `d` of the payload `week` has any valid lesson.
pub open spec fn day_has_lessons(week: WeekJournalReply, d: Date) -> bool {
    kept_of(day_lessons(week.data.days@, date_string_of(d))).len() > 0
}

/// An extraction result shows lessons exactly when the day record has a valid
/// lesson.
pub proof fn lemma_has_lessons_iff(
    week: WeekJournalReply,
    d: Date,
    times: Map<i32, Time>,
    classes: Seq<SubjectList>,
    notes: Seq<Notes>,
)
    requires
        extract_post(week, d, times, classes, notes),
    ensures
        spec_has_lessons(classes) <==> day_has_lessons(week, d),
{
    broadcast use vstd::seq_lib::to_multiset_len;

    let raw = day_lessons(week.data.days@, date_string_of(d));
    lemma_levels_lessons(raw);
    if spec_has_lessons(classes) {
        let k = choose|k: int| 0 <= k < classes.len() && (#[trigger] classes[k]).subjects@.len()
            > 0;
        let lv = levels_of(raw)[k];
        assert(views_of(classes[k].subjects@).len() > 0);
        assert(views_of(level_lessons_of(raw, lv)).len() > 0);
        assert(level_lessons_of(raw, lv).len() > 0);
        assert(levels_of(raw).contains(lv));
        assert(levels_of(raw).len() > 0);
    }
    if day_has_lessons(week, d) {
        assert(levels_of(raw).len() > 0);
        let lv = levels_of(raw)[0];
        assert(levels_of(raw).contains(lv));
        assert(level_lessons_of(raw, lv).len() > 0);
        assert(classes.len() > 0);
        assert(views_of(classes[0].subjects@).to_multiset() == views_of(
            level_lessons_of(raw, lv),
        ).to_multiset());
        vstd::seq_lib::to_multiset_len(views_of(classes[0].subjects@));
        vstd::seq_lib::to_multiset_len(views_of(level_lessons_of(raw, lv)));
        assert(classes[0].subjects@.len() > 0);
    }
}

/// Whether any class column holds at least one lesson.
pub fn has_lessons(classes: &Vec<SubjectList>) -> (b: bool)
    ensures
        b == spec_has_lessons(classes@),
{
    let mut k: usize = 0;
    while k < classes.len()
        invariant
            0 <= k <= classes@.len(),
            forall|q: int| 0 <= q < k ==> (#[trigger] classes@[q]).subjects@.len() == 0,
        decreases classes@.len() - k,
    {
        if classes[k].subjects.len() > 0 {
            return true;
        }
        k = k + 1;
    }
    false
}

/// What `extract_day_from_week` guarantees about its result, over the raw
/// lesson sequence of the matched day record.
pub open spec fn extract_post(
    week: WeekJournalReply,
    d: Date,
    times: Map<i32, Time>,
    classes: Seq<SubjectList>,
    notes: Seq<Notes>,
) -> bool {
    let raw = day_lessons(week.data.days@, date_string_of(d));
    &&& times == times_map_of(raw)
    &&& classes.len() == levels_of(raw).len()
    &&& (forall|k: int|
        0 <= k < classes.len() ==> {
            let lv = levels_of(raw)[k];
            &&& (#[trigger] classes[k]).class_name@ == class_name_of(raw, lv)
            &&& sorted_by_nr(classes[k].subjects@)
            &&& views_of(classes[k].subjects@).to_multiset() == views_of(
                level_lessons_of(raw, lv),
            ).to_multiset()
        })
    &&& (forall|k: int, j: int|
        #![auto]
        0 <= k < classes.len() && 0 <= j < classes[k].subjects@.len() ==> lesson_ok(
            classes[k].subjects@[j],
        ))
    &&& notes == day_notes(week.data.days@, date_string_of(d))
}

proof fn lemma_level_lessons_ok(s: Seq<Lesson>, lv: i32)
    ensures
        forall|j: int|
            0 <= j < level_lessons_of(s, lv).len() ==> lesson_ok(
                #[trigger] level_lessons_of(s, lv)[j],
            ),
    decreases s.len(),
{
    if s.len() > 0 {
        lemma_level_lessons_ok(s.drop_last(), lv);
        let r = level_lessons_of(s.drop_last(), lv);
        let t = level_lessons_of(s, lv);
        assert forall|j: int| 0 <= j < t.len() implies lesson_ok(#[trigger] t[j]) by {
            if j < r.len() {
                assert(t[j] == r[j]);
            } else {
                assert(t[j] == s.last());
            }
        }
    }
}

/// Lessons with view-for-view the same content as all-valid lessons are valid.
proof fn lemma_ok_from_views(a: Seq<Lesson>, b: Seq<Lesson>)
    requires
        views_of(a).to_multiset() == views_of(b).to_multiset(),
        forall|j: int| 0 <= j < b.len() ==> lesson_ok(#[trigger] b[j]),
    ensures
        forall|j: int| 0 <= j < a.len() ==> lesson_ok(#[trigger] a[j]),
{
    let va = views_of(a);
    let vb = views_of(b);
    assert forall|j: int| 0 <= j < a.len() implies lesson_ok(#[trigger] a[j]) by {
        assert(va[j] == a[j]@);
        assert(va.contains(va[j]));
        vstd::seq_lib::to_multiset_contains(va, va[j]);
        vstd::seq_lib::to_multiset_contains(vb, va[j]);
        assert(vb.contains(va[j]));
        let i = choose|i: int| 0 <= i < vb.len() && vb[i] == va[j];
        assert(b[i]@ == a[j]@);
        assert(lesson_ok(b[i]));
    }
}

struct LevelAcc {
    level: i32,
    name: String,
    lessons: Vec<Lesson>,
}

/// Isolates the lessons and notes of `date` inside a week payload: the first
/// day record whose date string matches (none matching yields empty results),
/// its invalid lessons dropped, the rest grouped into one column per level
/// with the common-prefix class name and sorted by hour, and the first-seen
/// time slot of each hour number. Columns come in the order the levels are
/// first seen among the day's valid lessons.
#[verifier::loop_isolation(false)]
pub fn extract_day_from_week(week_data: &WeekJournalReply, date: &Date) -> (r: (
    HashMap<i32, Time>,
    Vec<SubjectList>,
    Vec<Notes>,
))
    requires
        valid_date(*date),
    ensures
        extract_post(*week_data, *date, r.0@, r.1@, r.2@),
{
    broadcast use vstd::std_specs::hash::group_hash_axioms;

    let date_str = format_date(date);
    let ghost ds = date_string_of(*date);
    let days = &week_data.data.days;
    let mut di: usize = 0;
    let mut day_found: bool = false;
    while di < days.len() && !day_found
        invariant
            0 <= di <= days@.len(),
            forall|j: int| 0 <= j < di ==> (#[trigger] days@[j]).date@ != ds,
            day_found ==> di < days@.len() && days@[di as int].date@ == ds,
        decreases days@.len() - di, (if day_found { 0int } else { 1int }),
    {
        if days[di].date == date_str {
            day_found = true;
        } else {
            di = di + 1;
        }
    }
    proof {
        lemma_first_day_match(days@, ds);
    }
    if !day_found {
        let empty_times: HashMap<i32, Time> = HashMap::new();
        let empty_classes: Vec<SubjectList> = Vec::new();
        let empty_notes: Vec<Notes> = Vec::new();
        proof {
            assert(first_day_match(days@, ds) == -1);
            assert(day_lessons(days@, ds) =~= Seq::<Lesson>::empty());
            assert(day_notes(days@, ds) =~= Seq::<Notes>::empty());
        }
        return (empty_times, empty_classes, empty_notes);
    }
    proof {
        assert(first_day_match(days@, ds) == di as int);
    }
    let day = &days[di];
    let ghost ls = day.lessons@;
    proof {
        assert(day_lessons(days@, ds) == ls);
        assert(day_notes(days@, ds) == day.notes@);
    }
    let out_notes = clone_notes(&day.notes);

    let mut times: HashMap<i32, Time> = HashMap::new();
    let mut accs: Vec<LevelAcc> = Vec::new();
    let mut i: usize = 0;
    proof {
        assert(ls.take(0) =~= Seq::<Lesson>::empty());
    }
    while i < day.lessons.len()
        invariant
            0 <= i <= ls.len(),
            times@ == times_map_of(ls.take(i as int)),
            accs@.len() == levels_of(ls.take(i as int)).len(),
            forall|q: int|
                0 <= q < accs@.len() ==> (#[trigger] accs@[q]).level == levels_of(
                    ls.take(i as int),
                )[q],
            forall|q: int|
                0 <= q < accs@.len() ==> (#[trigger] accs@[q]).name@ == class_name_of(
                    ls.take(i as int),
                    accs@[q].level,
                ),
            forall|q: int|
                0 <= q < accs@.len() ==> views_of((#[trigger] accs@[q]).lessons@) == views_of(
                    level_lessons_of(ls.take(i as int), accs@[q].level),
                ),
        decreases ls.len() - i,
    {
        let ghost pre = ls.take(i as int);
        proof {
            assert(ls.take(i + 1) =~= pre.push(ls[i as int]));
            lemma_folds_push(pre, ls[i as int]);
            lemma_levels_lessons(pre);
            lemma_levels_distinct(pre);
        }
        let l = &day.lessons[i];
        if l.group.level_id == 0 || l.nr == 0 {
            // invalid: dropped
        } else {
            if !times.contains_key(&l.nr) {
                times.insert(l.nr, l.time.clone());
            }
            let lvl = l.group.level_id;
            let mut k: usize = 0;
            let mut level_known: bool = false;
            while k < accs.len() && !level_known
                invariant
                    0 <= k <= accs@.len(),
                    !level_known ==> forall|q: int|
                        0 <= q < k ==> (#[trigger] accs@[q]).level != lvl,
                    level_known ==> k < accs@.len() && accs@[k as int].level == lvl,
                decreases accs@.len() - k, (if level_known { 0int } else { 1int }),
            {
                if accs[k].level == lvl {
                    level_known = true;
                } else {
                    k = k + 1;
                }
            }
            if level_known {
                proof {
                    assert(levels_of(pre).contains(lvl)) by {
                        assert(levels_of(pre)[k as int] == lvl);
                    }
                    assert(level_lessons_of(pre, lvl).len() > 0);
                }
                let ghost old_accs = accs@;
                let mut acc = accs.remove(k);
                let new_name = common_prefix_str(acc.name.as_str(), l.group.local_id.as_str());
                acc.name = new_name;
                acc.lessons.push(l.clone());
                accs.insert(k, acc);
                proof {
                    assert(accs@ =~= old_accs.update(k as int, accs@[k as int]));
                    assert(views_of(accs@[k as int].lessons@) =~= views_of(
                        old_accs[k as int].lessons@,
                    ).push(ls[i as int]@));
                    assert(views_of(level_lessons_of(pre, lvl).push(ls[i as int])) =~= views_of(
                        level_lessons_of(pre, lvl),
                    ).push(ls[i as int]@));
                }
            } else {
                proof {
                    assert(!levels_of(pre).contains(lvl)) by {
                        if levels_of(pre).contains(lvl) {
                            let w = choose|w: int|
                                0 <= w < levels_of(pre).len() && levels_of(pre)[w] == lvl;
                            assert(accs@[w].level == lvl);
                        }
                    }
                    lemma_levels_lessons(pre);
                    assert(level_lessons_of(pre, lvl).len() == 0);
                }
                let mut first: Vec<Lesson> = Vec::new();
                first.push(l.clone());
                accs.push(LevelAcc { level: lvl, name: l.group.local_id.clone(), lessons: first });
                proof {
                    let q = accs@.len() - 1;
                    assert(views_of(accs@[q].lessons@) =~= views_of(
                        level_lessons_of(ls.take(i + 1), lvl),
                    ));
                }
            }
        }
        i = i + 1;
    }
    proof {
        assert(ls.take(ls.len() as int) =~= ls);
    }

    let mut classes: Vec<SubjectList> = Vec::new();
    let ghost accs_full = accs@;
    while accs.len() > 0
        invariant
            classes@.len() <= accs_full.len(),
            accs@ =~= accs_full.skip(classes@.len() as int),
            forall|q: int|
                0 <= q < classes@.len() ==> (#[trigger] classes@[q]).class_name@
                    == accs_full[q].name@,
            forall|q: int|
                0 <= q < classes@.len() ==> sorted_by_nr((#[trigger] classes@[q]).subjects@),
            forall|q: int|
                0 <= q < classes@.len() ==> views_of(
                    (#[trigger] classes@[q]).subjects@,
                ).to_multiset() == views_of(accs_full[q].lessons@).to_multiset(),
        decreases accs@.len(),
    {
        let ghost c = classes@.len() as int;
        let acc = accs.remove(0);
        proof {
            assert(acc == accs_full[c]);
            assert(accs_full.skip(c).drop_first() =~= accs_full.skip(c + 1));
        }
        let sorted = sort_lessons(acc.lessons);
        classes.push(SubjectList { class_name: acc.name, subjects: sorted });
    }
    proof {
        assert(classes@.len() == accs_full.len());
        assert forall|k: int, j: int|
            0 <= k < classes@.len() && 0 <= j < classes@[k].subjects@.len() implies lesson_ok(
            #[trigger] classes@[k].subjects@[j],
        ) by {
            let lv = levels_of(ls)[k];
            lemma_level_lessons_ok(ls, lv);
            lemma_ok_from_views(classes@[k].subjects@, level_lessons_of(ls, lv));
        }
    }
    (times, classes, out_notes)
}

} // verus!
