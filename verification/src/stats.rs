//! Statistics over session history: sessions bucketed by local calendar
//! day with per-day totals, and the current and longest daily-activity
//! streaks.
//!
//! A day is the number of whole days between the epoch and the session's
//! local time: `(started_at + utc_offset_seconds) / 86400`.

use vstd::prelude::*;

use crate::dates::{spec_format_day, format_day, MAX_DAY};
use crate::sessions::SessionData;
use crate::vocabulary::{in_lang, VocabWord};

verus! {

/// Seconds in one day.
pub const DAY_SECONDS: i64 = 86400;

/// One calendar day of activity: how many sessions it held and their
/// total length in whole minutes, rounded up.
pub struct DailyActivity {
    pub day: i64,
    pub session_count: i64,
    pub total_minutes: i64,
}

/// The local calendar day of a session started at `started_at`.
pub open spec fn spec_day_of(started_at: int, offset: int) -> int {
    (started_at + offset) / 86400
}

/// A session's duration, with an unset duration counting as zero.
pub open spec fn spec_duration(s: SessionData) -> int {
    match s.duration {
        Some(d) => d as int,
        None => 0,
    }
}

/// How many sessions fall on day `d`.
pub open spec fn sessions_on_day(ss: Seq<SessionData>, offset: int, d: int) -> int
    decreases ss.len(),
{
    if ss.len() == 0 {
        0
    } else {
        sessions_on_day(ss.drop_last(), offset, d) + if spec_day_of(ss.last().started_at as int, offset)
            == d {
            1int
        } else {
            0int
        }
    }
}

/// The total duration of the sessions on day `d`.
pub open spec fn duration_on_day(ss: Seq<SessionData>, offset: int, d: int) -> int
    decreases ss.len(),
{
    if ss.len() == 0 {
        0
    } else {
        duration_on_day(ss.drop_last(), offset, d) + if spec_day_of(
            ss.last().started_at as int,
            offset,
        ) == d {
            spec_duration(ss.last())
        } else {
            0int
        }
    }
}

/// The total duration of all sessions.
pub open spec fn total_duration(ss: Seq<SessionData>) -> int
    decreases ss.len(),
{
    if ss.len() == 0 {
        0
    } else {
        total_duration(ss.drop_last()) + spec_duration(ss.last())
    }
}

/// Whether some session falls on day `d`.
pub open spec fn has_day(ss: Seq<SessionData>, offset: int, d: int) -> bool {
    exists|i: int|
        0 <= i < ss.len() && spec_day_of(ss[i].started_at as int, offset) == d
}

/// With every duration nonnegative, one day's total is at most the
/// overall total.
proof fn lemma_duration_on_day_le_total(ss: Seq<SessionData>, offset: int, d: int)
    requires
        forall|i: int| 0 <= i < ss.len() ==> spec_duration(#[trigger] ss[i]) >= 0,
    ensures
        0 <= duration_on_day(ss, offset, d) <= total_duration(ss),
    decreases ss.len(),
{
    if ss.len() > 0 {
        assert(forall|i: int|
            0 <= i < ss.drop_last().len() ==> spec_duration(#[trigger] ss.drop_last()[i]) >= 0);
        lemma_duration_on_day_le_total(ss.drop_last(), offset, d);
        assert(spec_duration(ss.last()) >= 0) by {
            assert(ss[ss.len() - 1] == ss.last());
        }
    }
}

/// Count the sessions on day `d` and sum their durations.
fn scan_day(sessions: &Vec<SessionData>, offset_seconds: i64, d: i64) -> (r: (usize, i64))
    requires
        forall|i: int|
            0 <= i < sessions@.len() ==> 0 <= (#[trigger] sessions@[i]).started_at as int
                + offset_seconds <= i64::MAX,
        forall|i: int| 0 <= i < sessions@.len() ==> spec_duration(#[trigger] sessions@[i]) >= 0,
        total_duration(sessions@) <= i64::MAX - 59,
    ensures
        r.0 == sessions_on_day(sessions@, offset_seconds as int, d as int),
        r.1 == duration_on_day(sessions@, offset_seconds as int, d as int),
{
    let n = sessions.len();
    let mut count: usize = 0;
    let mut dur: i64 = 0;
    let mut i: usize = 0;
    proof {
        assert(sessions@.take(0) =~= Seq::<SessionData>::empty());
    }
    while i < n
        invariant
            0 <= i <= n == sessions@.len(),
            count <= i,
            forall|k: int|
                0 <= k < sessions@.len() ==> 0 <= (#[trigger] sessions@[k]).started_at as int
                    + offset_seconds <= i64::MAX,
            forall|k: int| 0 <= k < sessions@.len() ==> spec_duration(#[trigger] sessions@[k]) >= 0,
            total_duration(sessions@) <= i64::MAX - 59,
            count == sessions_on_day(sessions@.take(i as int), offset_seconds as int, d as int),
            dur == duration_on_day(sessions@.take(i as int), offset_seconds as int, d as int),
        decreases n - i,
    {
        proof {
            assert(sessions@.take(i as int + 1).drop_last() =~= sessions@.take(i as int));
            assert(sessions@.take(i as int + 1).last() == sessions@[i as int]);
            lemma_take_preserves(sessions@, i as int + 1);
            lemma_duration_on_day_le_total(
                sessions@.take(i as int + 1),
                offset_seconds as int,
                d as int,
            );
            lemma_total_duration_take_le(sessions@, i as int + 1);
        }
        let day_i = (sessions[i].started_at + offset_seconds) / DAY_SECONDS;
        if day_i == d {
            count = count + 1;
            let sd = match sessions[i].duration {
                Some(x) => x,
                None => 0,
            };
            dur = dur + sd;
        }
        i = i + 1;
    }
    proof {
        assert(sessions@.take(n as int) =~= sessions@);
    }
    (count, dur)
}

/// Durations of a prefix stay nonnegative.
proof fn lemma_take_preserves(ss: Seq<SessionData>, k: int)
    requires
        0 <= k <= ss.len(),
        forall|i: int| 0 <= i < ss.len() ==> spec_duration(#[trigger] ss[i]) >= 0,
    ensures
        forall|i: int| 0 <= i < k ==> spec_duration(#[trigger] ss.take(k)[i]) >= 0,
{
    assert forall|i: int| 0 <= i < k implies spec_duration(#[trigger] ss.take(k)[i]) >= 0 by {
        assert(ss.take(k)[i] == ss[i]);
    }
}

/// A prefix's total duration is at most the whole total.
proof fn lemma_total_duration_take_le(ss: Seq<SessionData>, k: int)
    requires
        0 <= k <= ss.len(),
        forall|i: int| 0 <= i < ss.len() ==> spec_duration(#[trigger] ss[i]) >= 0,
    ensures
        total_duration(ss.take(k)) <= total_duration(ss),
    decreases ss.len() - k,
{
    if k == ss.len() {
        assert(ss.take(k) =~= ss);
    } else {
        lemma_total_duration_take_le(ss, k + 1);
        assert(ss.take(k + 1).drop_last() =~= ss.take(k));
        assert(ss.take(k + 1).last() == ss[k]);
    }
}

/// Whether a session passes the optional language and start-time
/// filters.
pub open spec fn session_included(s: SessionData, lang: Option<Seq<char>>, since: Option<int>) -> bool {
    &&& match lang {
        Some(l) => s.language@ == l,
        None => true,
    }
    &&& match since {
        Some(c) => s.started_at >= c,
        None => true,
    }
}

/// The sessions passing the filters, in order.
pub open spec fn spec_filter_sessions(
    ss: Seq<SessionData>,
    lang: Option<Seq<char>>,
    since: Option<int>,
) -> Seq<SessionData>
    decreases ss.len(),
{
    if ss.len() == 0 {
        Seq::empty()
    } else {
        let rest = spec_filter_sessions(ss.drop_first(), lang, since);
        if session_included(ss[0], lang, since) {
            seq![ss[0]] + rest
        } else {
            rest
        }
    }
}

/// Restrict a session history to one language and to sessions started
/// at or after a cutoff, as the stored queries do; the aggregations
/// below then run over the restricted history. An unset filter admits
/// everything.
pub fn filter_sessions(
    sessions: Vec<SessionData>,
    language: Option<&str>,
    since: Option<i64>,
) -> (r: Vec<SessionData>)
    ensures
        r@ == spec_filter_sessions(
            sessions@,
            match language {
                Some(l) => Some(l@),
                None => None,
            },
            match since {
                Some(c) => Some(c as int),
                None => None,
            },
        ),
{
    let ghost lang_v: Option<Seq<char>> = match language {
        Some(l) => Some(l@),
        None => None,
    };
    let ghost since_v: Option<int> = match since {
        Some(c) => Some(c as int),
        None => None,
    };
    let ghost whole = sessions@;
    let mut rest = sessions;
    let mut r: Vec<SessionData> = Vec::new();
    proof {
        assert(Seq::<SessionData>::empty() + spec_filter_sessions(whole, lang_v, since_v)
            =~= spec_filter_sessions(whole, lang_v, since_v));
    }
    while rest.len() > 0
        invariant
            lang_v == (match language {
                Some(l) => Some(l@),
                None => None::<Seq<char>>,
            }),
            since_v == (match since {
                Some(c) => Some(c as int),
                None => None::<int>,
            }),
            spec_filter_sessions(whole, lang_v, since_v) == r@ + spec_filter_sessions(
                rest@,
                lang_v,
                since_v,
            ),
        decreases rest.len(),
    {
        let ghost before = rest@;
        let s = rest.remove(0);
        proof {
            assert(before.remove(0) =~= before.drop_first());
            assert(s == before[0]);
        }
        let keep = (match language {
            Some(l) => crate::textops::str_eq(s.language.as_str(), l),
            None => true,
        }) && (match since {
            Some(c) => s.started_at >= c,
            None => true,
        });
        proof {
            assert(keep == session_included(before[0], lang_v, since_v));
        }
        if keep {
            let ghost prefix = r@;
            r.push(s);
            proof {
                assert(r@ =~= prefix + seq![before[0]]);
                assert(prefix + (seq![before[0]] + spec_filter_sessions(
                    before.drop_first(),
                    lang_v,
                    since_v,
                )) =~= (prefix + seq![before[0]]) + spec_filter_sessions(
                    before.drop_first(),
                    lang_v,
                    since_v,
                ));
            }
        }
    }
    proof {
        assert(rest@ =~= Seq::<SessionData>::empty());
        assert(spec_filter_sessions(rest@, lang_v, since_v) =~= Seq::<SessionData>::empty());
        assert(r@ + Seq::<SessionData>::empty() =~= r@);
    }
    r
}

/// Bucket sessions by local calendar day: one bucket per day that holds
/// at least one session, in ascending day order, with the session count
/// and the total minutes (rounded up) of that day.
pub fn daily_counts(sessions: &Vec<SessionData>, offset_seconds: i64) -> (r: Vec<DailyActivity>)
    requires
        forall|i: int|
            0 <= i < sessions@.len() ==> 0 <= (#[trigger] sessions@[i]).started_at as int
                + offset_seconds <= i64::MAX,
        forall|i: int| 0 <= i < sessions@.len() ==> spec_duration(#[trigger] sessions@[i]) >= 0,
        total_duration(sessions@) <= i64::MAX - 59,
        sessions@.len() <= i64::MAX,
    ensures
        forall|a: int, b: int| 0 <= a < b < r@.len() ==> r@[a].day < r@[b].day,
        forall|k: int|
            0 <= k < r@.len() ==> {
                &&& has_day(sessions@, offset_seconds as int, (#[trigger] r@[k]).day as int)
                &&& r@[k].session_count == sessions_on_day(
                    sessions@,
                    offset_seconds as int,
                    r@[k].day as int,
                )
                &&& r@[k].total_minutes == (duration_on_day(
                    sessions@,
                    offset_seconds as int,
                    r@[k].day as int,
                ) + 59) / 60
            },
        forall|d: int|
            #[trigger] has_day(sessions@, offset_seconds as int, d) ==> exists|k: int|
                0 <= k < r@.len() && r@[k].day == d,
{
    let n = sessions.len();
    let mut days: Vec<i64> = Vec::new();
    let mut i: usize = 0;
    while i < n
        invariant
            0 <= i <= n == sessions@.len(),
            forall|k: int|
                0 <= k < sessions@.len() ==> 0 <= (#[trigger] sessions@[k]).started_at as int
                    + offset_seconds <= i64::MAX,
            forall|a: int, b: int| 0 <= a < b < days@.len() ==> days@[a] < days@[b],
            forall|k: int|
                0 <= k < days@.len() ==> has_day(
                    sessions@,
                    offset_seconds as int,
                    (#[trigger] days@[k]) as int,
                ),
            forall|j: int|
                0 <= j < i ==> days@.contains(
                    (((#[trigger] sessions@[j]).started_at + offset_seconds) / 86400) as i64,
                ),
        decreases n - i,
    {
        let d = (sessions[i].started_at + offset_seconds) / DAY_SECONDS;
        let m = days.len();
        let mut p: usize = 0;
        while p < m && days[p] < d
            invariant
                0 <= p <= m == days@.len(),
                forall|q: int| 0 <= q < p ==> days@[q] < d,
            decreases m - p,
        {
            p = p + 1;
        }
        if p < m && days[p] == d {
            proof {
                assert(days@.contains(d));
            }
        } else {
            let ghost before = days@;
            days.insert(p, d);
            proof {
                assert(days@ == before.insert(p as int, d));
                assert forall|y: i64| #[trigger]
                    days@.contains(y) == (before.contains(y) || y == d) by {
                    crate::seqtools::lemma_insert_contains(before, p as int, d, y);
                }
                assert forall|a: int, b: int| 0 <= a < b < days@.len() implies days@[a]
                    < days@[b] by {
                    if b < p {
                        assert(days@[a] == before[a] && days@[b] == before[b]);
                    } else if a < p && b == p {
                        assert(days@[a] == before[a] && days@[b] == d);
                    } else if a < p && b > p {
                        assert(days@[a] == before[a] && days@[b] == before[b - 1]);
                        assert(before[a] < d);
                        if b - 1 == p - 1 + 1 - 1 {
                        }
                        assert(p <= b - 1);
                        if p < before.len() {
                            assert(before[p as int] != d);
                            assert(before[p as int] >= d);
                        }
                        assert(before[b - 1] >= d || (p as int) > b - 1);
                        if (p as int) <= b - 1 {
                            if (p as int) == b - 1 {
                                assert(before[b - 1] > d);
                            } else {
                                assert(before[p as int] < before[b - 1]);
                                assert(before[p as int] > d);
                            }
                        }
                    } else if a == p {
                        assert(days@[a] == d && days@[b] == before[b - 1]);
                        assert((p as int) <= b - 1);
                        if p < before.len() {
                            assert(before[p as int] > d);
                            if (p as int) < b - 1 {
                                assert(before[p as int] <= before[b - 1]);
                            }
                        }
                    } else {
                        assert(days@[a] == before[a - 1] && days@[b] == before[b - 1]);
                    }
                }
                assert forall|k: int|
                    0 <= k < days@.len() implies has_day(
                    sessions@,
                    offset_seconds as int,
                    (#[trigger] days@[k]) as int,
                ) by {
                    if days@[k] == d {
                        assert(spec_day_of(sessions@[i as int].started_at as int, offset_seconds as int)
                            == d);
                    } else {
                        assert(before.contains(days@[k])) by {
                            crate::seqtools::lemma_insert_contains(
                                before,
                                p as int,
                                d,
                                days@[k],
                            );
                        }
                        let q = choose|q: int| 0 <= q < before.len() && before[q] == days@[k];
                        assert(has_day(sessions@, offset_seconds as int, before[q] as int));
                    }
                }
            }
        }
        i = i + 1;
    }
    let m = days.len();
    let mut r: Vec<DailyActivity> = Vec::new();
    let mut k: usize = 0;
    while k < m
        invariant
            0 <= k <= m == days@.len(),
            r@.len() == k,
            forall|i2: int|
                0 <= i2 < sessions@.len() ==> 0 <= (#[trigger] sessions@[i2]).started_at as int
                    + offset_seconds <= i64::MAX,
            forall|i2: int|
                0 <= i2 < sessions@.len() ==> spec_duration(#[trigger] sessions@[i2]) >= 0,
            total_duration(sessions@) <= i64::MAX - 59,
            sessions@.len() <= i64::MAX,
            forall|a: int, b: int| 0 <= a < b < days@.len() ==> days@[a] < days@[b],
            forall|j: int|
                0 <= j < days@.len() ==> has_day(
                    sessions@,
                    offset_seconds as int,
                    (#[trigger] days@[j]) as int,
                ),
            forall|j: int| 0 <= j < k ==> (#[trigger] r@[j]).day == days@[j],
            forall|j: int|
                0 <= j < k ==> {
                    &&& (#[trigger] r@[j]).session_count == sessions_on_day(
                        sessions@,
                        offset_seconds as int,
                        r@[j].day as int,
                    )
                    &&& r@[j].total_minutes == (duration_on_day(
                        sessions@,
                        offset_seconds as int,
                        r@[j].day as int,
                    ) + 59) / 60
                },
        decreases m - k,
    {
        let d = days[k];
        let (count, dur) = scan_day(sessions, offset_seconds, d);
        proof {
            lemma_sessions_on_day_le_len(sessions@, offset_seconds as int, d as int);
            lemma_duration_on_day_le_total(sessions@, offset_seconds as int, d as int);
        }
        r.push(
            DailyActivity {
                day: d,
                session_count: count as i64,
                total_minutes: (dur + 59) / 60,
            },
        );
        k = k + 1;
    }
    proof {
        assert forall|d: int|
            #[trigger] has_day(sessions@, offset_seconds as int, d) implies exists|k2: int|
            0 <= k2 < r@.len() && r@[k2].day == d by {
            let i2 = choose|i2: int|
                0 <= i2 < sessions@.len() && spec_day_of(
                    sessions@[i2].started_at as int,
                    offset_seconds as int,
                ) == d;
            assert(days@.contains(
                ((sessions@[i2].started_at + offset_seconds) / 86400) as i64,
            ));
            let q = choose|q: int|
                0 <= q < days@.len() && days@[q] == (((sessions@[i2].started_at + offset_seconds)
                    / 86400) as i64);
            assert(r@[q].day == days@[q]);
        }
    }
    r
}

/// No day holds more sessions than there are.
proof fn lemma_sessions_on_day_le_len(ss: Seq<SessionData>, offset: int, d: int)
    ensures
        0 <= sessions_on_day(ss, offset, d) <= ss.len(),
    decreases ss.len(),
{
    if ss.len() > 0 {
        lemma_sessions_on_day_le_len(ss.drop_last(), offset, d);
    }
}

/// The days of the activity buckets, in order.
pub open spec fn days_of(daily: Seq<DailyActivity>) -> Seq<int> {
    Seq::new(daily.len(), |i: int| daily[i].day as int)
}

/// The length of the run of consecutive days `today`, `today - 1`, ...
/// that all appear among `days`; `fuel` bounds the recursion and any
/// value at least `days.len()` is exact, since the days are distinct.
pub open spec fn current_streak_from(days: Seq<int>, d: int, fuel: nat) -> int
    decreases fuel,
{
    if fuel == 0 || !days.contains(d) {
        0
    } else {
        1 + current_streak_from(days, d - 1, (fuel - 1) as nat)
    }
}

/// The current streak: the run of consecutive active days ending at the
/// most recent active day, walking backward from today. A gap of
/// exactly one day at the start — today inactive, yesterday active —
/// still counts the run ending yesterday; a gap of more than one day
/// ends the streak at 0.
pub open spec fn spec_current_streak(days: Seq<int>, today: int, fuel: nat) -> int {
    if days.contains(today) {
        current_streak_from(days, today, fuel)
    } else if days.contains(today - 1) {
        current_streak_from(days, today - 1, fuel)
    } else {
        0
    }
}

/// The longest run of consecutive days in an ascending day sequence,
/// together with the length of the run ending at the last day.
pub open spec fn longest_run(days: Seq<int>) -> (int, int)
    decreases days.len(),
{
    if days.len() == 0 {
        (0, 0)
    } else if days.len() == 1 {
        (1, 1)
    } else {
        let prev = longest_run(days.drop_last());
        let cur = if days.last() == days[days.len() - 2] + 1 {
            prev.1 + 1
        } else {
            1
        };
        (if prev.0 >= cur {
            prev.0
        } else {
            cur
        }, cur)
    }
}

/// Current and longest daily-activity streaks. The current streak walks
/// backward from `today` through consecutive active days, starting at
/// today or — when today itself held no session — at yesterday; a gap
/// of more than one day at the start ends it at 0. The longest streak
/// is the longest run of consecutive active days anywhere in the
/// history.
pub fn calculate_streaks(daily: &Vec<DailyActivity>, today: i64) -> (r: (i64, i64))
    requires
        forall|a: int, b: int| 0 <= a < b < daily@.len() ==> daily@[a].day < daily@[b].day,
        0 <= today,
        daily@.len() <= i64::MAX,
    ensures
        r.0 == spec_current_streak(days_of(daily@), today as int, daily@.len() as nat),
        r.1 == longest_run(days_of(daily@)).0,
{
    let ghost days = days_of(daily@);
    let n = daily.len();
    let start: i64 = if contains_day(daily, today) {
        today
    } else if contains_day(daily, today - 1) {
        today - 1
    } else {
        today
    };
    let ghost streak_spec = spec_current_streak(days, today as int, n as nat);
    proof {
        if days.contains(today as int) || days.contains(today as int - 1) {
            assert(streak_spec == current_streak_from(days, start as int, n as nat));
        } else {
            assert(streak_spec == 0);
            assert(current_streak_from(days, start as int, n as nat) == 0);
        }
    }
    let mut current: usize = 0;
    while current < n && contains_day(daily, start - current as i64)
        invariant
            0 <= current <= n == daily@.len(),
            n <= i64::MAX,
            -1 <= start <= today,
            days == days_of(daily@),
            streak_spec == spec_current_streak(days, today as int, n as nat),
            streak_spec == current + current_streak_from(
                days,
                start - current,
                (n - current) as nat,
            ),
        decreases n - current,
    {
        current = current + 1;
    }
    proof {
        if current < n {
            assert(!days.contains(start - (current - 1) as int - 1 + 0));
            assert(current_streak_from(days, start - current, (n - current) as nat) == 0);
        } else {
            assert(current_streak_from(days, start - current, 0nat) == 0);
        }
    }
    let mut longest: i64 = 0;
    let mut run: i64 = 0;
    let mut k: usize = 0;
    proof {
        assert(days_of(daily@).take(0) =~= Seq::<int>::empty());
    }
    while k < n
        invariant
            0 <= k <= n == daily@.len(),
            n <= i64::MAX,
            days == days_of(daily@),
            forall|a: int, b: int| 0 <= a < b < daily@.len() ==> daily@[a].day < daily@[b].day,
            longest == longest_run(days.take(k as int)).0,
            run == longest_run(days.take(k as int)).1,
            run <= k,
            longest <= k,
        decreases n - k,
    {
        proof {
            assert(days.take(k as int + 1).drop_last() =~= days.take(k as int));
            assert(days.take(k as int + 1).last() == days[k as int]);
            if k > 0 {
                assert(days.take(k as int + 1)[k as int - 1] == days[k as int - 1]);
            }
        }
        if k > 0 && daily[k].day == daily[k - 1].day + 1 {
            run = run + 1;
        } else {
            run = 1;
        }
        if run > longest {
            longest = run;
        }
        k = k + 1;
    }
    proof {
        assert(days.take(n as int) =~= days);
    }
    (current as i64, longest)
}

/// Whether some bucket is for day `d`.
fn contains_day(daily: &Vec<DailyActivity>, d: i64) -> (r: bool)
    ensures
        r == days_of(daily@).contains(d as int),
{
    let n = daily.len();
    let mut i: usize = 0;
    while i < n
        invariant
            0 <= i <= n == daily@.len(),
            forall|j: int| 0 <= j < i ==> days_of(daily@)[j] != d as int,
        decreases n - i,
    {
        if daily[i].day == d {
            proof {
                assert(days_of(daily@)[i as int] == d as int);
            }
            return true;
        }
        i = i + 1;
    }
    proof {
        if days_of(daily@).contains(d as int) {
            let j = choose|j: int|
                0 <= j < days_of(daily@).len() && days_of(daily@)[j] == d as int;
        }
    }
    false
}

/// One calendar day of activity, with the date in "YYYY-MM-DD" form.
pub struct DailySessionCount {
    pub date: String,
    pub session_count: i64,
    pub total_minutes: i64,
}

/// A frequently used word, for the top-words view.
pub struct TopWord {
    pub lemma: String,
    pub usage_count: i64,
    pub forms_spoken: Vec<String>,
}

/// Vocabulary growth on one day: new words and the running total.
pub struct VocabGrowth {
    pub date: String,
    pub new_words: i64,
    pub cumulative_total: i64,
}

/// Relies on chrono's Local::now: the current Unix timestamp together
/// with the local zone's offset from UTC in seconds. Nothing can be
/// promised of the clock itself; chrono keeps the offset strictly
/// within one day either way.
#[verifier::external_body]
pub fn local_now() -> (r: (i64, i64))
    ensures
        -86400 < r.1 < 86400,
{
    let now = chrono::Local::now();
    (now.timestamp(), now.offset().local_minus_utc() as i64)
}

/// Render day buckets with their dates in "YYYY-MM-DD" form.
pub fn to_session_counts(daily: &Vec<DailyActivity>) -> (r: Vec<DailySessionCount>)
    requires
        forall|k: int| 0 <= k < daily@.len() ==> 0 <= (#[trigger] daily@[k]).day <= MAX_DAY,
    ensures
        r@.len() == daily@.len(),
        forall|k: int|
            0 <= k < daily@.len() ==> {
                &&& (#[trigger] r@[k]).date@ == spec_format_day(daily@[k].day as int)
                &&& r@[k].session_count == daily@[k].session_count
                &&& r@[k].total_minutes == daily@[k].total_minutes
            },
{
    let n = daily.len();
    let mut r: Vec<DailySessionCount> = Vec::new();
    let mut k: usize = 0;
    while k < n
        invariant
            0 <= k <= n == daily@.len(),
            forall|j: int| 0 <= j < daily@.len() ==> 0 <= (#[trigger] daily@[j]).day <= MAX_DAY,
            r@.len() == k,
            forall|j: int|
                0 <= j < k ==> {
                    &&& (#[trigger] r@[j]).date@ == spec_format_day(daily@[j].day as int)
                    &&& r@[j].session_count == daily@[j].session_count
                    &&& r@[j].total_minutes == daily@[j].total_minutes
                },
        decreases n - k,
    {
        r.push(
            DailySessionCount {
                date: format_day(daily[k].day),
                session_count: daily[k].session_count,
                total_minutes: daily[k].total_minutes,
            },
        );
        k = k + 1;
    }
    r
}

/// New words of one day, as an intermediate of the growth view.
pub struct VocabDayCount {
    pub day: i64,
    pub new_words: i64,
}

/// The local calendar day a vocabulary entry was first seen.
pub open spec fn vocab_day(w: VocabWord, offset: int) -> int {
    (w.first_seen_at + offset) / 86400
}

/// How many entries of the language were first seen on day `d`.
pub open spec fn new_on_day(ws: Seq<VocabWord>, lang: Seq<char>, offset: int, d: int) -> int
    decreases ws.len(),
{
    if ws.len() == 0 {
        0
    } else {
        new_on_day(ws.drop_last(), lang, offset, d) + if in_lang(ws.last(), lang) && vocab_day(
            ws.last(),
            offset,
        ) == d {
            1int
        } else {
            0int
        }
    }
}

/// Whether some entry of the language was first seen on day `d`.
pub open spec fn has_vocab_day(ws: Seq<VocabWord>, lang: Seq<char>, offset: int, d: int) -> bool {
    exists|i: int|
        0 <= i < ws.len() && in_lang(#[trigger] ws[i], lang) && vocab_day(ws[i], offset) == d
}

/// Count the entries of the language first seen on day `d`.
fn scan_vocab_day(words: &Vec<VocabWord>, language: &str, offset: i64, d: i64) -> (r: usize)
    requires
        forall|i: int|
            0 <= i < words@.len() ==> 0 <= (#[trigger] words@[i]).first_seen_at as int + offset
                <= i64::MAX,
    ensures
        r == new_on_day(words@, language@, offset as int, d as int),
{
    let n = words.len();
    let mut count: usize = 0;
    let mut i: usize = 0;
    proof {
        assert(words@.take(0) =~= Seq::<VocabWord>::empty());
    }
    while i < n
        invariant
            0 <= i <= n == words@.len(),
            count <= i,
            forall|k: int|
                0 <= k < words@.len() ==> 0 <= (#[trigger] words@[k]).first_seen_at as int + offset
                    <= i64::MAX,
            count == new_on_day(words@.take(i as int), language@, offset as int, d as int),
        decreases n - i,
    {
        proof {
            assert(words@.take(i as int + 1).drop_last() =~= words@.take(i as int));
            assert(words@.take(i as int + 1).last() == words@[i as int]);
        }
        if crate::textops::str_eq(words[i].language.as_str(), language) && (words[i].first_seen_at
            + offset) / DAY_SECONDS == d {
            count = count + 1;
        }
        i = i + 1;
    }
    proof {
        assert(words@.take(n as int) =~= words@);
    }
    count
}

/// Bucket the vocabulary of one language by the day each entry was
/// first seen: one bucket per day with at least one new word, in
/// ascending day order.
pub fn vocab_new_by_day(words: &Vec<VocabWord>, language: &str, offset: i64) -> (r: Vec<
    VocabDayCount,
>)
    requires
        forall|i: int|
            0 <= i < words@.len() ==> 0 <= (#[trigger] words@[i]).first_seen_at as int + offset
                <= i64::MAX,
        words@.len() <= i64::MAX,
    ensures
        forall|a: int, b: int| 0 <= a < b < r@.len() ==> r@[a].day < r@[b].day,
        forall|k: int|
            0 <= k < r@.len() ==> {
                &&& has_vocab_day(words@, language@, offset as int, (#[trigger] r@[k]).day as int)
                &&& r@[k].new_words == new_on_day(
                    words@,
                    language@,
                    offset as int,
                    r@[k].day as int,
                )
            },
        forall|d: int|
            #[trigger] has_vocab_day(words@, language@, offset as int, d) ==> exists|k: int|
                0 <= k < r@.len() && r@[k].day == d,
{
    let n = words.len();
    let mut days: Vec<i64> = Vec::new();
    let mut i: usize = 0;
    while i < n
        invariant
            0 <= i <= n == words@.len(),
            forall|k: int|
                0 <= k < words@.len() ==> 0 <= (#[trigger] words@[k]).first_seen_at as int + offset
                    <= i64::MAX,
            forall|a: int, b: int| 0 <= a < b < days@.len() ==> days@[a] < days@[b],
            forall|k: int|
                0 <= k < days@.len() ==> has_vocab_day(
                    words@,
                    language@,
                    offset as int,
                    (#[trigger] days@[k]) as int,
                ),
            forall|j: int|
                0 <= j < i && in_lang(#[trigger] words@[j], language@) ==> days@.contains(
                    (((words@[j]).first_seen_at + offset) / 86400) as i64,
                ),
        decreases n - i,
    {
        if crate::textops::str_eq(words[i].language.as_str(), language) {
            let d = (words[i].first_seen_at + offset) / DAY_SECONDS;
            let m = days.len();
            let mut p: usize = 0;
            while p < m && days[p] < d
                invariant
                    0 <= p <= m == days@.len(),
                    forall|q: int| 0 <= q < p ==> days@[q] < d,
                decreases m - p,
            {
                p = p + 1;
            }
            if p < m && days[p] == d {
                proof {
                    assert(days@.contains(d));
                }
            } else {
                let ghost before = days@;
                days.insert(p, d);
                proof {
                    assert(days@ == before.insert(p as int, d));
                    assert forall|y: i64| #[trigger]
                        days@.contains(y) == (before.contains(y) || y == d) by {
                        crate::seqtools::lemma_insert_contains(before, p as int, d, y);
                    }
                    assert forall|a: int, b: int| 0 <= a < b < days@.len() implies days@[a]
                        < days@[b] by {
                        if b < p {
                            assert(days@[a] == before[a] && days@[b] == before[b]);
                        } else if a < p && b == p {
                            assert(days@[a] == before[a] && days@[b] == d);
                        } else if a < p && b > p {
                            assert(days@[a] == before[a] && days@[b] == before[b - 1]);
                            assert(before[a] < d);
                            assert((p as int) <= b - 1);
                            if p < before.len() {
                                if (p as int) == b - 1 {
                                    assert(before[b - 1] > d);
                                } else {
                                    assert(before[p as int] < before[b - 1]);
                                    assert(before[p as int] > d);
                                }
                            }
                        } else if a == p {
                            assert(days@[a] == d && days@[b] == before[b - 1]);
                            assert((p as int) <= b - 1);
                            if p < before.len() {
                                assert(before[p as int] > d);
                                if (p as int) < b - 1 {
                                    assert(before[p as int] <= before[b - 1]);
                                }
                            }
                        } else {
                            assert(days@[a] == before[a - 1] && days@[b] == before[b - 1]);
                        }
                    }
                    assert forall|k: int|
                        0 <= k < days@.len() implies has_vocab_day(
                        words@,
                        language@,
                        offset as int,
                        (#[trigger] days@[k]) as int,
                    ) by {
                        if days@[k] == d {
                            assert(in_lang(words@[i as int], language@) && vocab_day(
                                words@[i as int],
                                offset as int,
                            ) == d);
                        } else {
                            assert(before.contains(days@[k])) by {
                                crate::seqtools::lemma_insert_contains(before, p as int, d, days@[k]);
                            }
                            let q = choose|q: int| 0 <= q < before.len() && before[q] == days@[k];
                            assert(has_vocab_day(words@, language@, offset as int, before[q] as int));
                        }
                    }
                }
            }
        }
        i = i + 1;
    }
    let m = days.len();
    let mut r: Vec<VocabDayCount> = Vec::new();
    let mut k: usize = 0;
    while k < m
        invariant
            0 <= k <= m == days@.len(),
            r@.len() == k,
            words@.len() <= i64::MAX,
            forall|i2: int|
                0 <= i2 < words@.len() ==> 0 <= (#[trigger] words@[i2]).first_seen_at as int
                    + offset <= i64::MAX,
            forall|a: int, b: int| 0 <= a < b < days@.len() ==> days@[a] < days@[b],
            forall|j: int|
                0 <= j < days@.len() ==> has_vocab_day(
                    words@,
                    language@,
                    offset as int,
                    (#[trigger] days@[j]) as int,
                ),
            forall|j: int| 0 <= j < k ==> (#[trigger] r@[j]).day == days@[j],
            forall|j: int|
                0 <= j < k ==> (#[trigger] r@[j]).new_words == new_on_day(
                    words@,
                    language@,
                    offset as int,
                    r@[j].day as int,
                ),
        decreases m - k,
    {
        let d = days[k];
        let count = scan_vocab_day(words, language, offset, d);
        proof {
            lemma_new_on_day_le_len(words@, language@, offset as int, d as int);
        }
        r.push(VocabDayCount { day: d, new_words: count as i64 });
        k = k + 1;
    }
    proof {
        assert forall|d: int|
            #[trigger] has_vocab_day(words@, language@, offset as int, d) implies exists|k2: int|
            0 <= k2 < r@.len() && r@[k2].day == d by {
            let i2 = choose|i2: int|
                0 <= i2 < words@.len() && in_lang(#[trigger] words@[i2], language@) && vocab_day(
                    words@[i2],
                    offset as int,
                ) == d;
            assert(days@.contains((((words@[i2]).first_seen_at + offset) / 86400) as i64));
            let q = choose|q: int|
                0 <= q < days@.len() && days@[q] == ((((words@[i2]).first_seen_at + offset)
                    / 86400) as i64);
            assert(r@[q].day == days@[q]);
        }
    }
    r
}

/// No day brings more new words than there are entries.
proof fn lemma_new_on_day_le_len(ws: Seq<VocabWord>, lang: Seq<char>, offset: int, d: int)
    ensures
        0 <= new_on_day(ws, lang, offset, d) <= ws.len(),
    decreases ws.len(),
{
    if ws.len() > 0 {
        lemma_new_on_day_le_len(ws.drop_last(), lang, offset, d);
    }
}

/// The total of the per-day new-word counts.
pub open spec fn sum_new(s: Seq<VocabDayCount>) -> int
    decreases s.len(),
{
    if s.len() == 0 {
        0
    } else {
        sum_new(s.drop_last()) + s.last().new_words
    }
}

/// A prefix's total is at most the whole total.
proof fn lemma_sum_new_take_le(s: Seq<VocabDayCount>, k: int)
    requires
        0 <= k <= s.len(),
        forall|i: int| 0 <= i < s.len() ==> (#[trigger] s[i]).new_words >= 0,
    ensures
        sum_new(s.take(k)) <= sum_new(s),
    decreases s.len() - k,
{
    if k == s.len() {
        assert(s.take(k) =~= s);
    } else {
        lemma_sum_new_take_le(s, k + 1);
        assert(s.take(k + 1).drop_last() =~= s.take(k));
        assert(s.take(k + 1).last() == s[k]);
    }
}

/// Turn per-day new-word counts into the growth view: each day with its
/// date, its new words, and the cumulative total up to and including it.
pub fn cumulative_growth(by_day: &Vec<VocabDayCount>) -> (r: Vec<VocabGrowth>)
    requires
        forall|k: int| 0 <= k < by_day@.len() ==> 0 <= (#[trigger] by_day@[k]).day <= MAX_DAY,
        forall|k: int| 0 <= k < by_day@.len() ==> (#[trigger] by_day@[k]).new_words >= 0,
        sum_new(by_day@) <= i64::MAX,
    ensures
        r@.len() == by_day@.len(),
        forall|k: int|
            0 <= k < r@.len() ==> {
                &&& (#[trigger] r@[k]).date@ == spec_format_day(by_day@[k].day as int)
                &&& r@[k].new_words == by_day@[k].new_words
                &&& r@[k].cumulative_total == sum_new(by_day@.take(k + 1))
            },
{
    let n = by_day.len();
    let mut r: Vec<VocabGrowth> = Vec::new();
    let mut cumulative: i64 = 0;
    let mut k: usize = 0;
    proof {
        assert(by_day@.take(0) =~= Seq::<VocabDayCount>::empty());
    }
    while k < n
        invariant
            0 <= k <= n == by_day@.len(),
            r@.len() == k,
            forall|j: int| 0 <= j < by_day@.len() ==> 0 <= (#[trigger] by_day@[j]).day <= MAX_DAY,
            forall|j: int| 0 <= j < by_day@.len() ==> (#[trigger] by_day@[j]).new_words >= 0,
            sum_new(by_day@) <= i64::MAX,
            cumulative == sum_new(by_day@.take(k as int)),
            forall|j: int|
                0 <= j < k ==> {
                    &&& (#[trigger] r@[j]).date@ == spec_format_day(by_day@[j].day as int)
                    &&& r@[j].new_words == by_day@[j].new_words
                    &&& r@[j].cumulative_total == sum_new(by_day@.take(j + 1))
                },
        decreases n - k,
    {
        proof {
            assert(by_day@.take(k as int + 1).drop_last() =~= by_day@.take(k as int));
            assert(by_day@.take(k as int + 1).last() == by_day@[k as int]);
            lemma_sum_new_take_le(by_day@, k as int + 1);
            assert(sum_new(by_day@.take(k as int)) >= 0) by {
                lemma_sum_new_nonneg(by_day@.take(k as int));
            }
        }
        cumulative = cumulative + by_day[k].new_words;
        r.push(
            VocabGrowth {
                date: format_day(by_day[k].day),
                new_words: by_day[k].new_words,
                cumulative_total: cumulative,
            },
        );
        k = k + 1;
    }
    r
}

/// A total of nonnegative counts is nonnegative.
proof fn lemma_sum_new_nonneg(s: Seq<VocabDayCount>)
    requires
        forall|i: int| 0 <= i < s.len() ==> (#[trigger] s[i]).new_words >= 0,
    ensures
        sum_new(s) >= 0,
    decreases s.len(),
{
    if s.len() > 0 {
        lemma_sum_new_nonneg(s.drop_last());
        assert(s[s.len() - 1] == s.last());
    }
}

/// The overall summary. The averages are in thousandths, so that
/// `average_wpm_milli == 150000` means 150 words a minute on average.
pub struct OverallStats {
    pub total_sessions: i64,
    pub total_speaking_time_seconds: i64,
    pub total_vocabulary_size: i64,
    pub average_wpm_milli: i64,
    pub current_streak_days: i64,
    pub longest_streak_days: i64,
    pub avg_unique_words_per_session_milli: i64,
    pub avg_new_words_per_session_milli: i64,
}

/// How many sessions have the summed field set, and the field's total:
/// words per minute.
pub open spec fn sum_wpm(ss: Seq<SessionData>) -> (int, int)
    decreases ss.len(),
{
    if ss.len() == 0 {
        (0, 0)
    } else {
        let rest = sum_wpm(ss.drop_last());
        match ss.last().wpm_milli {
            Some(x) => (rest.0 + 1, rest.1 + x),
            None => rest,
        }
    }
}

/// Count and total of the unique-word counts that are set.
pub open spec fn sum_unique(ss: Seq<SessionData>) -> (int, int)
    decreases ss.len(),
{
    if ss.len() == 0 {
        (0, 0)
    } else {
        let rest = sum_unique(ss.drop_last());
        match ss.last().unique_word_count {
            Some(x) => (rest.0 + 1, rest.1 + x),
            None => rest,
        }
    }
}

/// Count and total of the new-word counts that are set.
pub open spec fn sum_new_words(ss: Seq<SessionData>) -> (int, int)
    decreases ss.len(),
{
    if ss.len() == 0 {
        (0, 0)
    } else {
        let rest = sum_new_words(ss.drop_last());
        match ss.last().new_word_count {
            Some(x) => (rest.0 + 1, rest.1 + x),
            None => rest,
        }
    }
}

/// The mean in thousandths of a total already in thousandths, 0 when
/// nothing was counted.
pub open spec fn spec_avg_of_milli(count: int, total: int) -> int {
    if count == 0 {
        0
    } else {
        total / count
    }
}

/// The mean in thousandths of a plain total, 0 when nothing was counted.
pub open spec fn spec_avg_milli(count: int, total: int) -> int {
    if count == 0 {
        0
    } else {
        total * 1000 / count
    }
}

/// Whether every optional statistic of every session is nonnegative and
/// small enough to aggregate.
pub open spec fn stats_bounded(ss: Seq<SessionData>) -> bool {
    &&& forall|i: int|
        0 <= i < ss.len() ==> match (#[trigger] ss[i]).wpm_milli {
            Some(x) => 0 <= x,
            None => true,
        }
    &&& forall|i: int|
        0 <= i < ss.len() ==> match (#[trigger] ss[i]).unique_word_count {
            Some(x) => 0 <= x,
            None => true,
        }
    &&& forall|i: int|
        0 <= i < ss.len() ==> match (#[trigger] ss[i]).new_word_count {
            Some(x) => 0 <= x,
            None => true,
        }
    &&& sum_wpm(ss).1 <= i64::MAX
    &&& sum_unique(ss).1 <= i64::MAX / 1000
    &&& sum_new_words(ss).1 <= i64::MAX / 1000
}

/// Prefix aggregates stay within the whole aggregates.
proof fn lemma_sums_take_le(ss: Seq<SessionData>, k: int)
    requires
        0 <= k <= ss.len(),
        stats_bounded(ss),
    ensures
        sum_wpm(ss.take(k)).0 <= sum_wpm(ss).0,
        sum_wpm(ss.take(k)).1 <= sum_wpm(ss).1,
        sum_unique(ss.take(k)).1 <= sum_unique(ss).1,
        sum_new_words(ss.take(k)).1 <= sum_new_words(ss).1,
    decreases ss.len() - k,
{
    if k == ss.len() {
        assert(ss.take(k) =~= ss);
    } else {
        lemma_sums_take_le(ss, k + 1);
        assert(ss.take(k + 1).drop_last() =~= ss.take(k));
        assert(ss.take(k + 1).last() == ss[k]);
    }
}

/// Prefix aggregates are nonnegative and count at most `k` sessions.
proof fn lemma_sums_prefix_nonneg(ss: Seq<SessionData>, k: int)
    requires
        0 <= k <= ss.len(),
        stats_bounded(ss),
    ensures
        0 <= sum_wpm(ss.take(k)).0 <= k,
        0 <= sum_wpm(ss.take(k)).1,
        0 <= sum_unique(ss.take(k)).0 <= k,
        0 <= sum_unique(ss.take(k)).1,
        0 <= sum_new_words(ss.take(k)).0 <= k,
        0 <= sum_new_words(ss.take(k)).1,
    decreases k,
{
    if k == 0 {
        assert(ss.take(0) =~= Seq::<SessionData>::empty());
    } else {
        lemma_sums_prefix_nonneg(ss, k - 1);
        assert(ss.take(k).drop_last() =~= ss.take(k - 1));
        assert(ss.take(k).last() == ss[k - 1]);
    }
}

/// The overall summary of a session history: totals, averages over the
/// sessions whose statistics are set, and the daily-activity streaks.
pub fn get_overall_stats(
    sessions: &Vec<SessionData>,
    vocab_size: i64,
    daily: &Vec<DailyActivity>,
    today: i64,
) -> (r: OverallStats)
    requires
        sessions@.len() <= i64::MAX,
        forall|i: int| 0 <= i < sessions@.len() ==> spec_duration(#[trigger] sessions@[i]) >= 0,
        total_duration(sessions@) <= i64::MAX,
        stats_bounded(sessions@),
        forall|a: int, b: int| 0 <= a < b < daily@.len() ==> daily@[a].day < daily@[b].day,
        0 <= today,
        daily@.len() <= i64::MAX,
    ensures
        r.total_sessions == sessions@.len(),
        r.total_speaking_time_seconds == total_duration(sessions@),
        r.total_vocabulary_size == vocab_size,
        r.average_wpm_milli == spec_avg_of_milli(sum_wpm(sessions@).0, sum_wpm(sessions@).1),
        r.avg_unique_words_per_session_milli == spec_avg_milli(
            sum_unique(sessions@).0,
            sum_unique(sessions@).1,
        ),
        r.avg_new_words_per_session_milli == spec_avg_milli(
            sum_new_words(sessions@).0,
            sum_new_words(sessions@).1,
        ),
        r.current_streak_days == spec_current_streak(
            days_of(daily@),
            today as int,
            daily@.len() as nat,
        ),
        r.longest_streak_days == longest_run(days_of(daily@)).0,
{
    let n = sessions.len();
    let mut total_time: i64 = 0;
    let mut wpm_count: i64 = 0;
    let mut wpm_total: i64 = 0;
    let mut unique_count: i64 = 0;
    let mut unique_total: i64 = 0;
    let mut new_count: i64 = 0;
    let mut new_total: i64 = 0;
    let mut i: usize = 0;
    proof {
        assert(sessions@.take(0) =~= Seq::<SessionData>::empty());
    }
    while i < n
        invariant
            0 <= i <= n == sessions@.len(),
            n <= i64::MAX,
            forall|k: int| 0 <= k < sessions@.len() ==> spec_duration(#[trigger] sessions@[k]) >= 0,
            total_duration(sessions@) <= i64::MAX,
            stats_bounded(sessions@),
            total_time == total_duration(sessions@.take(i as int)),
            wpm_count == sum_wpm(sessions@.take(i as int)).0,
            wpm_total == sum_wpm(sessions@.take(i as int)).1,
            unique_count == sum_unique(sessions@.take(i as int)).0,
            unique_total == sum_unique(sessions@.take(i as int)).1,
            new_count == sum_new_words(sessions@.take(i as int)).0,
            new_total == sum_new_words(sessions@.take(i as int)).1,
        decreases n - i,
    {
        proof {
            assert(sessions@.take(i as int + 1).drop_last() =~= sessions@.take(i as int));
            assert(sessions@.take(i as int + 1).last() == sessions@[i as int]);
            lemma_take_preserves(sessions@, i as int + 1);
            lemma_total_duration_take_le(sessions@, i as int + 1);
            lemma_sums_take_le(sessions@, i as int + 1);
            lemma_sums_prefix_nonneg(sessions@, i as int + 1);
        }
        match sessions[i].duration {
            Some(d) => {
                total_time = total_time + d;
            },
            None => {},
        }
        match sessions[i].wpm_milli {
            Some(x) => {
                wpm_count = wpm_count + 1;
                wpm_total = wpm_total + x;
            },
            None => {},
        }
        match sessions[i].unique_word_count {
            Some(x) => {
                unique_count = unique_count + 1;
                unique_total = unique_total + x;
            },
            None => {},
        }
        match sessions[i].new_word_count {
            Some(x) => {
                new_count = new_count + 1;
                new_total = new_total + x;
            },
            None => {},
        }
        i = i + 1;
    }
    proof {
        assert(sessions@.take(n as int) =~= sessions@);
        lemma_sums_prefix_nonneg(sessions@, n as int);
    }
    let average_wpm_milli: i64 = if wpm_count == 0 {
        0
    } else {
        wpm_total / wpm_count
    };
    let avg_unique: i64 = if unique_count == 0 {
        0
    } else {
        (unique_total * 1000) / unique_count
    };
    let avg_new: i64 = if new_count == 0 {
        0
    } else {
        (new_total * 1000) / new_count
    };
    let (current, longest) = calculate_streaks(daily, today);
    OverallStats {
        total_sessions: n as i64,
        total_speaking_time_seconds: total_time,
        total_vocabulary_size: vocab_size,
        average_wpm_milli,
        current_streak_days: current,
        longest_streak_days: longest,
        avg_unique_words_per_session_milli: avg_unique,
        avg_new_words_per_session_milli: avg_new,
    }
}

/// The average words per minute of one day, in thousandths.
pub struct WpmTrend {
    pub day: i64,
    pub date: String,
    pub avg_wpm_milli: i64,
}

/// Count and total of the words-per-minute values of the sessions on
/// day `d` whose value is set.
pub open spec fn wpm_on_day(ss: Seq<SessionData>, offset: int, d: int) -> (int, int)
    decreases ss.len(),
{
    if ss.len() == 0 {
        (0, 0)
    } else {
        let rest = wpm_on_day(ss.drop_last(), offset, d);
        if spec_day_of(ss.last().started_at as int, offset) == d {
            match ss.last().wpm_milli {
                Some(x) => (rest.0 + 1, rest.1 + x),
                None => rest,
            }
        } else {
            rest
        }
    }
}

/// Whether a trend row reports its day's average correctly.
pub open spec fn trend_row_ok(ss: Seq<SessionData>, offset: int, row: WpmTrend) -> bool {
    let day = wpm_on_day(ss, offset, row.day as int);
    &&& has_day(ss, offset, row.day as int)
    &&& row.date@ == spec_format_day(row.day as int)
    &&& (day.0 > 0 ==> row.avg_wpm_milli == day.1 / day.0)
    &&& (day.0 == 0 ==> row.avg_wpm_milli == 0)
}

/// A day's aggregate stays within the whole aggregate and counts at
/// most `k` sessions over the first `k`.
proof fn lemma_wpm_on_day_prefix(ss: Seq<SessionData>, offset: int, d: int, k: int)
    requires
        0 <= k <= ss.len(),
        stats_bounded(ss),
    ensures
        0 <= wpm_on_day(ss.take(k), offset, d).0 <= k,
        0 <= wpm_on_day(ss.take(k), offset, d).1 <= sum_wpm(ss).1,
    decreases k,
{
    if k == 0 {
        assert(ss.take(0) =~= Seq::<SessionData>::empty());
        lemma_sums_prefix_nonneg(ss, ss.len() as int);
        assert(ss.take(ss.len() as int) =~= ss);
    } else {
        lemma_wpm_on_day_prefix(ss, offset, d, k - 1);
        assert(ss.take(k).drop_last() =~= ss.take(k - 1));
        assert(ss.take(k).last() == ss[k - 1]);
        lemma_wpm_le_sum(ss, offset, d, k);
    }
}

/// A day's total is at most the overall total over the same prefix.
proof fn lemma_wpm_le_sum(ss: Seq<SessionData>, offset: int, d: int, k: int)
    requires
        0 <= k <= ss.len(),
        stats_bounded(ss),
    ensures
        wpm_on_day(ss.take(k), offset, d).1 <= sum_wpm(ss.take(k)).1,
        sum_wpm(ss.take(k)).1 <= sum_wpm(ss).1,
    decreases k,
{
    if k == 0 {
        assert(ss.take(0) =~= Seq::<SessionData>::empty());
    } else {
        lemma_wpm_le_sum(ss, offset, d, k - 1);
        assert(ss.take(k).drop_last() =~= ss.take(k - 1));
        assert(ss.take(k).last() == ss[k - 1]);
    }
    lemma_sums_take_le(ss, k);
}

/// Average words per minute per local calendar day, in thousandths: one
/// row per day that has at least one session with the statistic set, in
/// ascending day order, rendered with its date.
pub fn wpm_trends(sessions: &Vec<SessionData>, offset_seconds: i64) -> (r: Vec<WpmTrend>)
    requires
        forall|i: int|
            0 <= i < sessions@.len() ==> 0 <= (#[trigger] sessions@[i]).started_at as int
                + offset_seconds <= 253402300799,
        forall|i: int| 0 <= i < sessions@.len() ==> spec_duration(#[trigger] sessions@[i]) >= 0,
        total_duration(sessions@) <= i64::MAX - 59,
        sessions@.len() <= i64::MAX,
        stats_bounded(sessions@),
    ensures
        forall|a: int, b: int| 0 <= a < b < r@.len() ==> r@[a].day < r@[b].day,
        forall|t: int|
            0 <= t < r@.len() ==> trend_row_ok(sessions@, offset_seconds as int, #[trigger] r@[t]),
        forall|d: int|
            #[trigger] has_day(sessions@, offset_seconds as int, d) ==> exists|t: int|
                0 <= t < r@.len() && r@[t].day == d,
{
    let buckets = daily_counts(sessions, offset_seconds);
    let m = buckets.len();
    let mut r: Vec<WpmTrend> = Vec::new();
    let mut k: usize = 0;
    proof {
        assert forall|j: int|
            0 <= j < buckets@.len() implies 0 <= (#[trigger] buckets@[j]).day <= MAX_DAY by {
            let i2 = choose|i2: int|
                0 <= i2 < sessions@.len() && spec_day_of(
                    sessions@[i2].started_at as int,
                    offset_seconds as int,
                ) == buckets@[j].day;
            assert(sessions@[i2].started_at + offset_seconds <= 253402300799);
            vstd::arithmetic::div_mod::lemma_div_is_ordered(
                0,
                sessions@[i2].started_at + offset_seconds,
                86400,
            );
            vstd::arithmetic::div_mod::lemma_div_is_ordered(
                sessions@[i2].started_at + offset_seconds,
                253402300799,
                86400,
            );
            assert(253402300799int / 86400 == MAX_DAY);
        }
    }
    while k < m
        invariant
            0 <= k <= m == buckets@.len(),
            r@.len() == k,
            sessions@.len() <= i64::MAX,
            stats_bounded(sessions@),
            forall|i2: int|
                0 <= i2 < sessions@.len() ==> 0 <= (#[trigger] sessions@[i2]).started_at as int
                    + offset_seconds <= 253402300799,
            forall|j: int| 0 <= j < buckets@.len() ==> 0 <= (#[trigger] buckets@[j]).day <= MAX_DAY,
            forall|j: int|
                0 <= j < buckets@.len() ==> has_day(
                    sessions@,
                    offset_seconds as int,
                    (#[trigger] buckets@[j]).day as int,
                ),
            forall|a: int, b: int| 0 <= a < b < buckets@.len() ==> buckets@[a].day
                < buckets@[b].day,
            forall|d: int|
                #[trigger] has_day(sessions@, offset_seconds as int, d) ==> exists|q: int|
                    0 <= q < buckets@.len() && buckets@[q].day == d,
            forall|j: int| 0 <= j < k ==> (#[trigger] r@[j]).day == buckets@[j].day,
            forall|j: int|
                0 <= j < k ==> trend_row_ok(sessions@, offset_seconds as int, #[trigger] r@[j]),
        decreases m - k,
    {
        let d = buckets[k].day;
        proof {
            assert forall|i2: int|
                0 <= i2 < sessions@.len() implies 0 <= (#[trigger] sessions@[i2]).started_at as int
                + offset_seconds <= i64::MAX by {
                assert(sessions@[i2].started_at + offset_seconds <= 253402300799);
            }
        }
        let (count, total) = scan_wpm_day(sessions, offset_seconds, d);
        proof {
            lemma_wpm_on_day_prefix(
                sessions@,
                offset_seconds as int,
                d as int,
                sessions@.len() as int,
            );
            assert(sessions@.take(sessions@.len() as int) =~= sessions@);
        }
        let avg: i64 = if count == 0 {
            0
        } else {
            total / (count as i64)
        };
        r.push(WpmTrend { day: d, date: format_day(d), avg_wpm_milli: avg });
        proof {
            let day = wpm_on_day(sessions@, offset_seconds as int, d as int);
            assert(r@[k as int].day == d && r@[k as int].date@ == spec_format_day(d as int) && (
            day.0 > 0 ==> r@[k as int].avg_wpm_milli == day.1 / day.0) && (day.0 == 0 ==> r@[
                k as int
            ].avg_wpm_milli == 0) && has_day(sessions@, offset_seconds as int, d as int));
            assert(trend_row_ok(sessions@, offset_seconds as int, r@[k as int]));
        }
        k = k + 1;
    }
    proof {
        assert forall|d: int|
            #[trigger] has_day(sessions@, offset_seconds as int, d) implies exists|t: int|
            0 <= t < r@.len() && r@[t].day == d by {
            let q = choose|q: int| 0 <= q < buckets@.len() && buckets@[q].day == d;
            assert(r@[q].day == buckets@[q].day);
        }
    }
    r
}

/// Count the sessions on day `d` with a words-per-minute value and sum
/// those values.
fn scan_wpm_day(sessions: &Vec<SessionData>, offset_seconds: i64, d: i64) -> (r: (usize, i64))
    requires
        forall|i: int|
            0 <= i < sessions@.len() ==> 0 <= (#[trigger] sessions@[i]).started_at as int
                + offset_seconds <= i64::MAX,
        sessions@.len() <= i64::MAX,
        stats_bounded(sessions@),
    ensures
        r.0 == wpm_on_day(sessions@, offset_seconds as int, d as int).0,
        r.1 == wpm_on_day(sessions@, offset_seconds as int, d as int).1,
{
    let n = sessions.len();
    let mut count: usize = 0;
    let mut total: i64 = 0;
    let mut i: usize = 0;
    proof {
        assert(sessions@.take(0) =~= Seq::<SessionData>::empty());
    }
    while i < n
        invariant
            0 <= i <= n == sessions@.len(),
            count <= i,
            forall|j: int|
                0 <= j < sessions@.len() ==> 0 <= (#[trigger] sessions@[j]).started_at as int
                    + offset_seconds <= i64::MAX,
            stats_bounded(sessions@),
            count == wpm_on_day(sessions@.take(i as int), offset_seconds as int, d as int).0,
            total == wpm_on_day(sessions@.take(i as int), offset_seconds as int, d as int).1,
        decreases n - i,
    {
        proof {
            assert(sessions@.take(i as int + 1).drop_last() =~= sessions@.take(i as int));
            assert(sessions@.take(i as int + 1).last() == sessions@[i as int]);
            lemma_wpm_on_day_prefix(sessions@, offset_seconds as int, d as int, i as int + 1);
            lemma_wpm_on_day_prefix(sessions@, offset_seconds as int, d as int, i as int);
        }
        if (sessions[i].started_at + offset_seconds) / DAY_SECONDS == d {
            match sessions[i].wpm_milli {
                Some(x) => {
                    count = count + 1;
                    total = total + x;
                },
                None => {},
            }
        }
        i = i + 1;
    }
    proof {
        assert(sessions@.take(n as int) =~= sessions@);
        lemma_wpm_on_day_prefix(sessions@, offset_seconds as int, d as int, n as int);
    }
    (count, total)
}

} // verus!
