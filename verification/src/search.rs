//! Holiday search: resolve a requested date to the next day with lessons,
//! fetching week payloads at most once per ISO week through a per-run cache,
//! skipping weekends and failed fetches, bounded to a three-week horizon.
//!
//! The search itself performs no I/O: it is a state machine. `Resolver::new`
//! names the first week to fetch; the caller performs each fetch and hands the
//! outcome to `Resolver::step`, which either asks for another week or
//! finishes.

use vstd::prelude::*;
use crate::dates::{
    Date, valid_date, is_weekend, spec_add_days, weekday, next_date, lemma_add_days_bounded,
    calc_iso_week, calc_iso_year, iso_week_of, iso_year_of,
};
use crate::records::{WeekJournalReply, TimeTable};
use crate::extract::{
    extract_day_from_week, extract_post, has_lessons, spec_has_lessons, day_has_lessons,
    lemma_has_lessons_iff,
};

verus! {

/// The ISO-week identity of a date: the key under which week payloads are
/// fetched and cached. Its display form is `"{iso_year}-{iso_week}"`.
#[derive(Clone, Copy, Debug, PartialEq, Eq, Structural)]
pub struct WeekKey {
    pub iso_year: i32,
    pub iso_week: u32,
}

pub open spec fn week_key_of(d: Date) -> WeekKey {
    WeekKey {
        iso_year: iso_year_of(d.year as int, d.month as int, d.day as int),
        iso_week: iso_week_of(d.year as int, d.month as int, d.day as int),
    }
}

/// The ISO-week key of a date.
pub fn week_key(d: &Date) -> (k: WeekKey)
    requires
        valid_date(*d),
    ensures
        k == week_key_of(*d),
{
    WeekKey { iso_year: calc_iso_year(d), iso_week: calc_iso_week(d) }
}

/// The payload stored under the first entry with key `k`, if any.
pub open spec fn lookup(entries: Seq<(WeekKey, WeekJournalReply)>, k: WeekKey) -> Option<
    WeekJournalReply,
>
    decreases entries.len(),
{
    if entries.len() == 0 {
        Option::None
    } else if entries[0].0 == k {
        Option::Some(entries[0].1)
    } else {
        lookup(entries.drop_first(), k)
    }
}

proof fn lemma_lookup_at(entries: Seq<(WeekKey, WeekJournalReply)>, k: WeekKey, i: int)
    requires
        0 <= i <= entries.len(),
        forall|j: int| 0 <= j < i ==> (#[trigger] entries[j]).0 != k,
        i == entries.len() || entries[i].0 == k,
    ensures
        lookup(entries, k) == if i == entries.len() {
            Option::<WeekJournalReply>::None
        } else {
            Option::Some(entries[i].1)
        },
    decreases entries.len(),
{
    if entries.len() > 0 && i > 0 {
        let e1 = entries.drop_first();
        assert forall|j: int| 0 <= j < i - 1 implies (#[trigger] e1[j]).0 != k by {
            assert(e1[j] == entries[j + 1]);
        }
        lemma_lookup_at(e1, k, i - 1);
    }
}

/// How `lookup` behaves when one entry is appended.
pub proof fn lemma_lookup_push(
    entries: Seq<(WeekKey, WeekJournalReply)>,
    k: WeekKey,
    p: WeekJournalReply,
    q: WeekKey,
)
    ensures
        lookup(entries.push((k, p)), q) == if lookup(entries, q) is Some {
            lookup(entries, q)
        } else if q == k {
            Option::Some(p)
        } else {
            Option::<WeekJournalReply>::None
        },
    decreases entries.len(),
{
    if entries.len() == 0 {
        assert(entries.push((k, p)).drop_first() =~= Seq::<(WeekKey, WeekJournalReply)>::empty());
    } else {
        assert(entries.push((k, p)).drop_first() =~= entries.drop_first().push((k, p)));
        lemma_lookup_push(entries.drop_first(), k, p, q);
    }
}

/// A cached week stays cached: whatever entries a run appends, an earlier
/// `lookup` result is never displaced. Together with `Resolver::step`, which
/// asks to fetch only weeks whose `lookup` is `None` and only ever appends to
/// the cache, this means one run fetches each week successfully at most once.
pub proof fn lemma_lookup_stable(
    pre: Seq<(WeekKey, WeekJournalReply)>,
    post: Seq<(WeekKey, WeekJournalReply)>,
    k: WeekKey,
)
    requires
        pre.is_prefix_of(post),
        lookup(pre, k) is Some,
    ensures
        lookup(post, k) == lookup(pre, k),
    decreases pre.len(),
{
    assert(pre.len() > 0);
    assert(post[0] == pre[0]);
    if pre[0].0 != k {
        assert(pre.drop_first().is_prefix_of(post.drop_first()));
        lemma_lookup_stable(pre.drop_first(), post.drop_first(), k);
    }
}

/// The per-run week cache: each ISO week fetched at most once, looked up
/// before every fetch. Owned by one resolution run and discarded with it.
pub struct WeekCache {
    pub entries: Vec<(WeekKey, WeekJournalReply)>,
}

impl WeekCache {
    pub fn new() -> (c: WeekCache)
        ensures
            c.entries@.len() == 0,
    {
        WeekCache { entries: Vec::new() }
    }

    /// The cached payload for `k`, if one was stored.
    pub fn get(&self, k: &WeekKey) -> (r: Option<&WeekJournalReply>)
        ensures
            match r {
                Option::Some(p) => lookup(self.entries@, *k) == Option::Some(*p),
                Option::None => lookup(self.entries@, *k) is None,
            },
    {
        let mut i: usize = 0;
        while i < self.entries.len()
            invariant
                0 <= i <= self.entries@.len(),
                forall|j: int| 0 <= j < i ==> (#[trigger] self.entries@[j]).0 != *k,
            decreases self.entries@.len() - i,
        {
            if self.entries[i].0 == *k {
                proof {
                    lemma_lookup_at(self.entries@, *k, i as int);
                }
                return Some(&self.entries[i].1);
            }
            i = i + 1;
        }
        proof {
            lemma_lookup_at(self.entries@, *k, self.entries@.len() as int);
        }
        None
    }

    /// Stores the payload fetched for `k`; each week is stored at most once.
    pub fn put(&mut self, k: WeekKey, payload: WeekJournalReply)
        requires
            lookup(old(self).entries@, k) is None,
        ensures
            final(self).entries@ == old(self).entries@.push((k, payload)),
            lookup(final(self).entries@, k) == Option::Some(payload),
            forall|q: WeekKey|
                q != k ==> #[trigger] lookup(final(self).entries@, q) == lookup(
                    old(self).entries@,
                    q,
                ),
            forall|q: WeekKey|
                lookup(old(self).entries@, q) is Some ==> #[trigger] lookup(
                    final(self).entries@,
                    q,
                ) == lookup(old(self).entries@, q),
    {
        proof {
            assert forall|q: WeekKey| true implies #[trigger] lookup(
                old(self).entries@.push((k, payload)),
                q,
            ) == if lookup(old(self).entries@, q) is Some {
                lookup(old(self).entries@, q)
            } else if q == k {
                Option::Some(payload)
            } else {
                Option::<WeekJournalReply>::None
            } by {
                lemma_lookup_push(old(self).entries@, k, payload, q);
            }
        }
        self.entries.push((k, payload));
    }
}

/// The decimal rendering of a number, no padding.
pub open spec fn dec_str(n: int) -> Seq<char>
    decreases n,
{
    if n < 10 {
        seq![crate::dates::digit_char(n)]
    } else {
        dec_str(n / 10) + seq![crate::dates::digit_char(n % 10)]
    }
}

/// The display form of a week key: `"{iso_year}-{iso_week}"`, the identifier
/// week payloads are requested under.
pub open spec fn week_key_string_of(k: WeekKey) -> Seq<char> {
    dec_str(k.iso_year as int) + seq!['-'] + dec_str(k.iso_week as int)
}

fn push_decimal(s: &mut String, n: u32)
    requires
        n < 100000,
    ensures
        final(s)@ == old(s)@ + dec_str(n as int),
{
    if n >= 10000 {
        s.append(crate::dates::digit_str((n / 10000) as i32));
    }
    if n >= 1000 {
        s.append(crate::dates::digit_str(((n / 1000) % 10) as i32));
    }
    if n >= 100 {
        s.append(crate::dates::digit_str(((n / 100) % 10) as i32));
    }
    if n >= 10 {
        s.append(crate::dates::digit_str(((n / 10) % 10) as i32));
    }
    s.append(crate::dates::digit_str((n % 10) as i32));
    proof {
        let m = n as int;
        if n >= 10 {
            assert(dec_str(m) == dec_str(m / 10) + seq![crate::dates::digit_char(m % 10)]);
        }
        if n >= 100 {
            assert(dec_str(m / 10) == dec_str(m / 100) + seq![
                crate::dates::digit_char((m / 10) % 10),
            ]);
        }
        if n >= 1000 {
            assert(dec_str(m / 100) == dec_str(m / 1000) + seq![
                crate::dates::digit_char((m / 100) % 10),
            ]);
        }
        if n >= 10000 {
            assert(dec_str(m / 1000) == dec_str(m / 10000) + seq![
                crate::dates::digit_char((m / 1000) % 10),
            ]);
        }
        assert(final(s)@ =~= old(s)@ + dec_str(n as int));
    }
}

/// Renders a week key as `"{iso_year}-{iso_week}"`.
pub fn week_key_string(k: &WeekKey) -> (r: String)
    requires
        0 <= k.iso_year <= 10000,
        k.iso_week <= 53,
    ensures
        r@ == week_key_string_of(*k),
{
    proof {
        reveal_strlit("-");
        assert(("-")@ =~= seq!['-']);
    }
    let mut s = String::new();
    push_decimal(&mut s, k.iso_year as u32);
    s.append("-");
    push_decimal(&mut s, k.iso_week);
    proof {
        assert(s@ =~= week_key_string_of(*k));
    }
    s
}

/// What one fetch attempt came to: the payload, or a transport/parse failure.
pub enum FetchResult {
    Success(WeekJournalReply),
    Failure,
}

/// What the resolver asks for next: fetch the named week, or it is done.
/// `Failed` is the fatal case: the very first fetch, for the requested date's
/// own week, did not succeed.
pub enum ResolveStep {
    NeedFetch(WeekKey),
    Finished(TimeTable),
    Failed,
}

#[derive(Clone, Copy, Debug, PartialEq, Eq, Structural)]
pub enum Phase {
    Initial,
    Searching,
    Done,
}

/// The holiday-search state machine. `Searching(date) -> {Found(day),
/// Searching(date+1), Exhausted -> Found(original empty day)}`, weekends
/// skipped, failed fetches skipped, at most 21 days past the requested date.
pub struct Resolver {
    pub requested: Date,
    pub current: Date,
    pub offset: u32,
    pub cache: WeekCache,
    pub baseline: Option<TimeTable>,
    pub phase: Phase,
    pub pending: WeekKey,
    pub failed: Ghost<Set<int>>,
}

/// The empty resolution of the requested date, kept for the exhausted case.
pub open spec fn baseline_ok(r: Resolver, b: TimeTable) -> bool {
    &&& match lookup(r.cache.entries@, week_key_of(r.requested)) {
        Option::Some(p) => extract_post(p, r.requested, b.times@, b.classes@, b.notes@),
        Option::None => false,
    }
    &&& !spec_has_lessons(b.classes@)
    &&& b.actual_date == r.requested
    &&& b.days_off_before == 0
}

/// Why the day `j` days past the requested date was passed over: a weekend,
/// a failed fetch, or a cached week that shows no lessons for it.
pub open spec fn skipped_ok(r: Resolver, j: int) -> bool {
    let dj = spec_add_days(r.requested, j as nat);
    ||| is_weekend(dj)
    ||| r.failed@.contains(j)
    ||| match lookup(r.cache.entries@, week_key_of(dj)) {
        Option::Some(p) => !day_has_lessons(p, dj),
        Option::None => false,
    }
}

/// A day once passed over stays passed over: the record of it survives cache
/// growth and further failed fetches.
proof fn lemma_skipped_ok_preserved(pre: Resolver, post: Resolver, j: int)
    requires
        skipped_ok(pre, j),
        post.requested == pre.requested,
        pre.failed@.subset_of(post.failed@),
        forall|q: WeekKey|
            lookup(pre.cache.entries@, q) is Some ==> #[trigger] lookup(post.cache.entries@, q)
                == lookup(pre.cache.entries@, q),
    ensures
        skipped_ok(post, j),
{
    let dj = spec_add_days(pre.requested, j as nat);
    if !is_weekend(dj) && !pre.failed@.contains(j) {
        assert(lookup(pre.cache.entries@, week_key_of(dj)) is Some);
        assert(lookup(post.cache.entries@, week_key_of(dj)) == lookup(
            pre.cache.entries@,
            week_key_of(dj),
        ));
    }
}

impl Resolver {
    pub open spec fn wf(self) -> bool {
        &&& valid_date(self.requested)
        &&& self.requested.year <= 9998
        &&& match self.phase {
            Phase::Initial => {
                &&& self.offset == 0
                &&& self.current == self.requested
                &&& self.pending == week_key_of(self.requested)
                &&& self.cache.entries@.len() == 0
                &&& self.baseline is None
            },
            Phase::Searching => {
                &&& 1 <= self.offset <= 21
                &&& self.current == spec_add_days(self.requested, self.offset as nat)
                &&& valid_date(self.current)
                &&& !is_weekend(self.current)
                &&& self.pending == week_key_of(self.current)
                &&& lookup(self.cache.entries@, self.pending) is None
                &&& (self.baseline matches Option::Some(b) && baseline_ok(self, b))
                &&& (forall|j: int| 1 <= j < self.offset ==> skipped_ok(self, j))
            },
            Phase::Done => true,
        }
    }

    /// The state `advance` starts from: searching, the day `offset` past the
    /// requested date examined or skipped like every day before it.
    pub open spec fn advancing_ok(self) -> bool {
        &&& self.phase == Phase::Searching
        &&& valid_date(self.requested)
        &&& self.requested.year <= 9998
        &&& self.offset <= 21
        &&& self.current == spec_add_days(self.requested, self.offset as nat)
        &&& valid_date(self.current)
        &&& (self.baseline matches Option::Some(b) && baseline_ok(self, b))
        &&& (forall|j: int| 1 <= j <= self.offset ==> skipped_ok(self, j))
    }
}

/// A day with lessons was found: the result is its extraction, its date, and
/// the exact number of calendar days between the requested and the found date;
/// every day in between was a weekend, a failed fetch, or shown empty.
pub open spec fn found_ok(req: Date, post: Resolver, tt: TimeTable) -> bool {
    &&& 0 <= tt.days_off_before <= 21
    &&& tt.days_off_before == post.offset as int
    &&& tt.actual_date == spec_add_days(req, tt.days_off_before as nat)
    &&& (tt.days_off_before > 0 ==> !is_weekend(tt.actual_date))
    &&& match lookup(post.cache.entries@, week_key_of(tt.actual_date)) {
        Option::Some(p) => extract_post(p, tt.actual_date, tt.times@, tt.classes@, tt.notes@)
            && day_has_lessons(p, tt.actual_date),
        Option::None => false,
    }
    &&& (forall|j: int| 1 <= j < tt.days_off_before ==> skipped_ok(post, j))
}

/// The horizon was exhausted: the result is the requested date's own (empty)
/// resolution with zero days off, and every day of the horizon was searched.
pub open spec fn exhausted_ok(req: Date, post: Resolver, tt: TimeTable) -> bool {
    &&& tt.days_off_before == 0
    &&& tt.actual_date == req
    &&& match lookup(post.cache.entries@, week_key_of(req)) {
        Option::Some(p) => extract_post(p, req, tt.times@, tt.classes@, tt.notes@),
        Option::None => false,
    }
    &&& (forall|j: int| 1 <= j <= 21 ==> skipped_ok(post, j))
}

/// What each answer of the resolver means.
pub open spec fn outcome_ok(req: Date, post: Resolver, out: ResolveStep) -> bool {
    match out {
        ResolveStep::NeedFetch(k) => {
            &&& post.phase == Phase::Searching
            &&& k == post.pending
            &&& k == week_key_of(post.current)
            &&& lookup(post.cache.entries@, k) is None
            &&& 1 <= post.offset <= 21
            &&& post.current == spec_add_days(req, post.offset as nat)
            &&& !is_weekend(post.current)
        },
        ResolveStep::Finished(tt) => {
            &&& post.phase == Phase::Done
            &&& (spec_has_lessons(tt.classes@) ==> found_ok(req, post, tt))
            &&& (!spec_has_lessons(tt.classes@) ==> exhausted_ok(req, post, tt))
        },
        ResolveStep::Failed => post.phase == Phase::Done,
    }
}

impl Resolver {
    /// Starts resolving `requested`: the returned key names the first week to
    /// fetch; hand the outcome to `step`.
    pub fn new(requested: Date) -> (r: (Resolver, WeekKey))
        requires
            valid_date(requested),
            requested.year <= 9998,
        ensures
            r.0.wf(),
            r.0.phase == Phase::Initial,
            r.0.requested == requested,
            r.0.cache.entries@.len() == 0,
            r.1 == week_key_of(requested),
    {
        let key = week_key(&requested);
        let resolver = Resolver {
            requested,
            current: requested,
            offset: 0,
            cache: WeekCache::new(),
            baseline: None,
            phase: Phase::Initial,
            pending: key,
            failed: Ghost(Set::empty()),
        };
        (resolver, key)
    }

    /// Feeds the outcome of the fetch that was asked for, and yields the next
    /// step. A week is only ever asked for when it is not in the cache, and a
    /// fetched week is cached for the rest of the run, so no week is fetched
    /// twice. Failure of the very first fetch is fatal; later failures skip
    /// the day. No fetch is asked for beyond 21 days past the requested date.
    pub fn step(&mut self, fetched: FetchResult) -> (out: ResolveStep)
        requires
            old(self).wf(),
            old(self).phase != Phase::Done,
        ensures
            final(self).requested == old(self).requested,
            final(self).wf(),
            old(self).cache.entries@.is_prefix_of(final(self).cache.entries@),
            (fetched matches FetchResult::Success(p) ==> lookup(
                final(self).cache.entries@,
                old(self).pending,
            ) == Option::Some(p)),
            outcome_ok(old(self).requested, *final(self), out),
            (out is Failed <==> (old(self).phase == Phase::Initial && fetched is Failure)),
    {
        let phase = self.phase;
        match phase {
            Phase::Initial => {
                match fetched {
                    FetchResult::Failure => {
                        self.phase = Phase::Done;
                        ResolveStep::Failed
                    },
                    FetchResult::Success(payload) => {
                        let key = self.pending;
                        self.cache.put(key, payload);
                        let (times, classes, notes) = match self.cache.get(&key) {
                            Option::Some(p) => extract_day_from_week(p, &self.requested),
                            Option::None => unreached(),
                        };
                        proof {
                            lemma_has_lessons_iff(
                                lookup(self.cache.entries@, key)->Some_0,
                                self.requested,
                                times@,
                                classes@,
                                notes@,
                            );
                            assert(spec_add_days(self.requested, 0nat) == self.requested);
                        }
                        if has_lessons(&classes) {
                            self.phase = Phase::Done;
                            return ResolveStep::Finished(
                                TimeTable {
                                    times,
                                    classes,
                                    notes,
                                    actual_date: self.requested,
                                    days_off_before: 0,
                                },
                            );
                        }
                        self.baseline = Some(
                            TimeTable {
                                times,
                                classes,
                                notes,
                                actual_date: self.requested,
                                days_off_before: 0,
                            },
                        );
                        self.phase = Phase::Searching;
                        self.advance()
                    },
                }
            },
            Phase::Searching => {
                match fetched {
                    FetchResult::Success(payload) => {
                        let key = self.pending;
                        self.cache.put(key, payload);
                        let (times, classes, notes) = match self.cache.get(&key) {
                            Option::Some(p) => extract_day_from_week(p, &self.current),
                            Option::None => unreached(),
                        };
                        proof {
                            lemma_has_lessons_iff(
                                lookup(self.cache.entries@, key)->Some_0,
                                self.current,
                                times@,
                                classes@,
                                notes@,
                            );
                        }
                        if has_lessons(&classes) {
                            self.phase = Phase::Done;
                            proof {
                                assert forall|j: int|
                                    1 <= j < self.offset implies skipped_ok(*self, j) by {
                                    lemma_skipped_ok_preserved(*old(self), *self, j);
                                }
                            }
                            return ResolveStep::Finished(
                                TimeTable {
                                    times,
                                    classes,
                                    notes,
                                    actual_date: self.current,
                                    days_off_before: self.offset as i32,
                                },
                            );
                        }
                        proof {
                            assert(lookup(
                                old(self).cache.entries@,
                                week_key_of(self.requested),
                            ) is Some);
                            assert(baseline_ok(*self, self.baseline->Some_0));
                            assert forall|j: int|
                                1 <= j <= self.offset implies skipped_ok(*self, j) by {
                                if j < self.offset {
                                    lemma_skipped_ok_preserved(*old(self), *self, j);
                                }
                            }
                        }
                        self.advance()
                    },
                    FetchResult::Failure => {
                        proof {
                            self.failed@ = self.failed@.insert(self.offset as int);
                            assert(self.failed@.contains(self.offset as int));
                            assert forall|j: int|
                                1 <= j <= self.offset implies skipped_ok(*self, j) by {
                                if j < self.offset {
                                    lemma_skipped_ok_preserved(*old(self), *self, j);
                                }
                            }
                            assert(baseline_ok(*self, self.baseline->Some_0));
                        }
                        self.advance()
                    },
                }
            },
            Phase::Done => {
                proof {
                    assert(false);
                }
                unreached()
            },
        }
    }

    /// Walks forward from the day `offset` past the requested date, skipping
    /// weekends, deciding cached days on the spot, until a day needs a fetch,
    /// a school day is found, or the horizon is exhausted.
    #[verifier::loop_isolation(false)]
    fn advance(&mut self) -> (out: ResolveStep)
        requires
            old(self).advancing_ok(),
        ensures
            final(self).requested == old(self).requested,
            final(self).wf(),
            final(self).cache.entries@ == old(self).cache.entries@,
            outcome_ok(old(self).requested, *final(self), out),
            !(out is Failed),
    {
        loop
            invariant
                self.phase == Phase::Searching,
                self.requested == old(self).requested,
                self.cache == old(self).cache,
                self.failed == old(self).failed,
                self.baseline == old(self).baseline,
                self.offset <= 21,
                self.current == spec_add_days(self.requested, self.offset as nat),
                valid_date(self.current),
                forall|j: int| 1 <= j <= self.offset ==> skipped_ok(*self, j),
            decreases 22 - self.offset,
        {
            let ghost prev = *self;
            proof {
                lemma_add_days_bounded(self.requested, self.offset as nat);
                assert(!(self.current.year == 9999 && self.current.month == 12 && self.current.day
                    == 31));
            }
            let nxt = next_date(&self.current);
            self.current = nxt;
            self.offset = self.offset + 1;
            proof {
                assert(self.current == spec_add_days(self.requested, self.offset as nat));
            }
            if self.offset > 21 {
                let b = self.baseline.take();
                let tt = match b {
                    Option::Some(t) => t,
                    Option::None => unreached(),
                };
                self.phase = Phase::Done;
                proof {
                    assert(baseline_ok(prev, tt));
                    assert forall|j: int| 1 <= j <= 21 implies skipped_ok(*self, j) by {
                        lemma_skipped_ok_preserved(prev, *self, j);
                    }
                    assert(exhausted_ok(old(self).requested, *self, tt));
                }
                return ResolveStep::Finished(tt);
            }
            let w = weekday(&self.current);
            if w < 5 {
                let key = week_key(&self.current);
                let found: Option<TimeTable> = match self.cache.get(&key) {
                    Option::Some(p) => {
                        let (times, classes, notes) = extract_day_from_week(p, &self.current);
                        proof {
                            lemma_has_lessons_iff(
                                lookup(self.cache.entries@, key)->Some_0,
                                self.current,
                                times@,
                                classes@,
                                notes@,
                            );
                        }
                        if has_lessons(&classes) {
                            Option::Some(
                                TimeTable {
                                    times,
                                    classes,
                                    notes,
                                    actual_date: self.current,
                                    days_off_before: self.offset as i32,
                                },
                            )
                        } else {
                            proof {
                                assert(skipped_ok(*self, self.offset as int));
                            }
                            Option::None
                        }
                    },
                    Option::None => {
                        self.pending = key;
                        proof {
                            assert(baseline_ok(*self, self.baseline->Some_0));
                            assert forall|j: int| 1 <= j < self.offset implies skipped_ok(
                                *self,
                                j,
                            ) by {
                                lemma_skipped_ok_preserved(prev, *self, j);
                            }
                        }
                        return ResolveStep::NeedFetch(key);
                    },
                };
                match found {
                    Option::Some(tt) => {
                        self.phase = Phase::Done;
                        proof {
                            assert forall|j: int| 1 <= j < self.offset implies skipped_ok(
                                *self,
                                j,
                            ) by {
                                lemma_skipped_ok_preserved(prev, *self, j);
                            }
                        }
                        return ResolveStep::Finished(tt);
                    },
                    Option::None => {
                        // this day is decided: its cached week shows no lessons
                        proof {
                            assert forall|j: int| 1 <= j <= self.offset implies skipped_ok(
                                *self,
                                j,
                            ) by {
                                if j < self.offset {
                                    lemma_skipped_ok_preserved(prev, *self, j);
                                }
                            }
                        }
                    },
                }
            } else {
                proof {
                    assert(is_weekend(self.current));
                    assert forall|j: int| 1 <= j <= self.offset implies skipped_ok(*self, j) by {
                        if j < self.offset {
                            lemma_skipped_ok_preserved(prev, *self, j);
                        }
                    }
                }
            }
        }
    }
}

} // verus!
