//! The numbers behind the statistics page.
//!
//! Levels are counted from the pack, so an empty level still shows as empty.
//! Days are filled in one by one, so a chart has no invisible gaps. A share of
//! correct blanks is kept as a fraction, correct out of total; the page turns
//! it into a percentage.

use vstd::prelude::*;

use crate::calendar::{monday, week_start};
use crate::domain::Level;
use crate::find::{first_where, lemma_first_where_at, lemma_first_where_none};
use crate::pack::{level_at, topic_with, Pack, Topic, TopicV};
use crate::progress::{due_on, strings_view, tally_view, TopicState, TopicStateV};
use crate::session::{states_view, weakness_view, weaknesses, Weakness};
use crate::text::{chars_of, same_chars};

verus! {

/// Days of activity shown, today included.
pub const ACTIVITY_DAYS: i32 = 30;

/// Days the year grid reaches back before it is wound back to a Monday.
pub const YEAR_DAYS: i32 = 364;

/// Days of forecast shown, today included.
pub const FORECAST_DAYS: i32 = 14;

/// How many weaknesses and hardest topics are shown.
pub const TOP_N: usize = 8;

/// `f(0) + f(1) + ... + f(n - 1)`.
pub open spec fn sum_to(f: spec_fn(int) -> int, n: int) -> int
    decreases n,
{
    if n <= 0 {
        0
    } else {
        sum_to(f, n - 1) + f(n - 1)
    }
}

/// Whether `list` holds the text `id`.
fn holds_text(list: &Vec<String>, id: &String) -> (r: bool)
    ensures
        r == strings_view(list@).contains(id@),
{
    let ghost lv = strings_view(list@);
    let want = chars_of(id.as_str());
    let mut k: usize = 0;
    while k < list.len()
        invariant
            k <= list.len(),
            lv == strings_view(list@),
            want@ == id@,
            forall|m: int| 0 <= m < k ==> lv[m] != id@,
        decreases list.len() - k,
    {
        if same_chars(&chars_of(list[k].as_str()), &want) {
            assert(lv[k as int] == id@);
            return true;
        }
        k += 1;
    }
    false
}

// ---------------------------------------------------------------- levels

pub struct LevelProgressV {
    pub level: Level,
    pub total: int,
    pub studied: int,
    pub due: int,
}

/// How far a level has come: its topics, how many were studied, how many are due.
#[derive(Debug, Clone, Copy, PartialEq, Eq)]
pub struct LevelProgress {
    pub level: Level,
    pub total: i64,
    pub studied: i64,
    pub due: i64,
}

impl View for LevelProgress {
    type V = LevelProgressV;

    open spec fn view(&self) -> LevelProgressV {
        LevelProgressV {
            level: self.level,
            total: self.total as int,
            studied: self.studied as int,
            due: self.due as int,
        }
    }
}

pub open spec fn in_level(topics: Seq<TopicV>, l: Level) -> spec_fn(int) -> int {
    |i: int|
        if topics[i].cefr == l {
            1int
        } else {
            0int
        }
}

pub open spec fn studied_in_level(topics: Seq<TopicV>, l: Level, studied: Seq<Seq<char>>) -> spec_fn(int) -> int {
    |i: int|
        if topics[i].cefr == l && studied.contains(topics[i].id) {
            1int
        } else {
            0int
        }
}

/// Some topic of level `l` has this id.
pub open spec fn level_has(topics: Seq<TopicV>, l: Level, id: Seq<char>) -> bool {
    exists|j: int| 0 <= j < topics.len() && (#[trigger] topics[j]).cefr == l && topics[j].id == id
}

pub open spec fn due_in_level(states: Seq<TopicStateV>, topics: Seq<TopicV>, l: Level, today: int) -> spec_fn(int) -> int {
    |i: int|
        if due_on(states[i], today) && level_has(topics, l, states[i].topic_id) {
            1int
        } else {
            0int
        }
}

/// The progress rows of the first `k` levels, A1 first, leaving out a level
/// without topics. A state counts as due in a level when it is due and some
/// topic of that level has its id.
pub open spec fn level_rows(
    topics: Seq<TopicV>,
    states: Seq<TopicStateV>,
    studied: Seq<Seq<char>>,
    today: int,
    k: int,
) -> Seq<LevelProgressV>
    decreases k,
{
    if k <= 0 {
        seq![]
    } else {
        let prev = level_rows(topics, states, studied, today, k - 1);
        let l = level_at(k - 1);
        let total = sum_to(in_level(topics, l), topics.len() as int);
        if total == 0 {
            prev
        } else {
            prev.push(
                LevelProgressV {
                    level: l,
                    total,
                    studied: sum_to(studied_in_level(topics, l, studied), topics.len() as int),
                    due: sum_to(due_in_level(states, topics, l, today), states.len() as int),
                },
            )
        }
    }
}

fn level_number(k: usize) -> (r: Level)
    ensures
        r == level_at(k as int),
{
    if k == 0 {
        Level::A1
    } else if k == 1 {
        Level::A2
    } else if k == 2 {
        Level::B1
    } else if k == 3 {
        Level::B2
    } else if k == 4 {
        Level::C1
    } else {
        Level::C2
    }
}

fn has_level_topic(topics: &Vec<Topic>, l: Level, id: &String) -> (r: bool)
    ensures
        r == level_has(topics@.map_values(|t: Topic| t@), l, id@),
{
    let ghost tv = topics@.map_values(|t: Topic| t@);
    let want = chars_of(id.as_str());
    let mut k: usize = 0;
    while k < topics.len()
        invariant
            k <= topics.len(),
            tv == topics@.map_values(|t: Topic| t@),
            want@ == id@,
            forall|m: int| 0 <= m < k ==> !((#[trigger] tv[m]).cefr == l && tv[m].id == id@),
        decreases topics.len() - k,
    {
        assert(tv[k as int] == topics@[k as int]@);
        if topics[k].cefr == l && same_chars(&chars_of(topics[k].id.as_str()), &want) {
            return true;
        }
        k += 1;
    }
    false
}

fn level_row(pack: &Pack, states: &Vec<TopicState>, studied: &Vec<String>, today: i32, l: Level) -> (r: LevelProgress)
    requires
        pack.topics.len() <= i64::MAX,
        states.len() <= i64::MAX,
    ensures
        r@ == (LevelProgressV {
            level: l,
            total: sum_to(in_level(pack@.topics, l), pack@.topics.len() as int),
            studied: sum_to(studied_in_level(pack@.topics, l, strings_view(studied@)), pack@.topics.len() as int),
            due: sum_to(due_in_level(states_view(states@), pack@.topics, l, today as int), states@.len() as int),
        }),
        r.total >= 0,
{
    let ghost tv = pack@.topics;
    let ghost sv = strings_view(studied@);
    let ghost stv = states_view(states@);
    let ghost f = in_level(tv, l);
    let ghost g = studied_in_level(tv, l, sv);
    let ghost h = due_in_level(stv, tv, l, today as int);
    let mut total: i64 = 0;
    let mut done: i64 = 0;
    let mut k: usize = 0;
    while k < pack.topics.len()
        invariant
            k <= pack.topics.len(),
            pack.topics.len() <= i64::MAX,
            tv == pack@.topics,
            sv == strings_view(studied@),
            f == in_level(tv, l),
            g == studied_in_level(tv, l, sv),
            total == sum_to(f, k as int),
            done == sum_to(g, k as int),
            0 <= total <= k,
            0 <= done <= k,
        decreases pack.topics.len() - k,
    {
        let topic = &pack.topics[k];
        assert(topic@ == tv[k as int]);
        if topic.cefr == l {
            total = total + 1;
            if holds_text(studied, &topic.id) {
                done = done + 1;
            }
        }
        k += 1;
    }
    let mut due: i64 = 0;
    let mut m: usize = 0;
    while m < states.len()
        invariant
            m <= states.len(),
            states.len() <= i64::MAX,
            tv == pack@.topics,
            stv == states_view(states@),
            h == due_in_level(stv, tv, l, today as int),
            due == sum_to(h, m as int),
            0 <= due <= m,
        decreases states.len() - m,
    {
        let s = &states[m];
        assert(s@ == stv[m as int]);
        if s.is_due(today) && has_level_topic(&pack.topics, l, &s.topic_id) {
            due = due + 1;
        }
        m += 1;
    }
    LevelProgress { level: l, total, studied: done, due }
}

pub open spec fn progress_view(rows: Seq<LevelProgress>) -> Seq<LevelProgressV> {
    rows.map_values(|p: LevelProgress| p@)
}

/// Progress by level, A1 first, for the levels that have topics. `studied`
/// holds the ids of the topics that have been reviewed at least once.
pub fn level_progress(pack: &Pack, states: &Vec<TopicState>, studied: &Vec<String>, today: i32) -> (r: Vec<LevelProgress>)
    requires
        pack.topics.len() <= i64::MAX,
        states.len() <= i64::MAX,
    ensures
        progress_view(r@) == level_rows(pack@.topics, states_view(states@), strings_view(studied@), today as int, 6),
{
    let mut out: Vec<LevelProgress> = Vec::new();
    let mut k: usize = 0;
    while k < 6
        invariant
            k <= 6,
            pack.topics.len() <= i64::MAX,
            states.len() <= i64::MAX,
            progress_view(out@) == level_rows(
                pack@.topics,
                states_view(states@),
                strings_view(studied@),
                today as int,
                k as int,
            ),
        decreases 6 - k,
    {
        let l = level_number(k);
        let row = level_row(pack, states, studied, today, l);
        if row.total > 0 {
            let ghost before = progress_view(out@);
            out.push(row);
            proof {
                assert(progress_view(out@) =~= before.push(row@));
            }
        }
        k += 1;
    }
    out
}

// ---------------------------------------------------------------- days

/// What happened on one day: reviews finished, blanks answered and answered
/// right, and time spent.
#[derive(Debug, Clone, Copy, PartialEq, Eq)]
pub struct DayActivity {
    pub day: i32,
    pub reviews: i64,
    pub correct: i64,
    pub total: i64,
    pub elapsed_ms: i64,
}

/// One column of a chart: a day, a count, and the share of blanks answered
/// right that day as correct out of total, absent when nothing was answered.
#[derive(Debug, Clone, Copy, PartialEq, Eq)]
pub struct DayPoint {
    pub day: i32,
    pub count: i64,
    pub share: Option<(i64, i64)>,
}

/// The activity recorded for a day: when a day is listed twice, the later
/// entry stands, as in a map built from the list in order.
pub open spec fn last_on(daily: Seq<DayActivity>, day: int) -> Option<DayActivity>
    decreases daily.len(),
{
    if daily.len() == 0 {
        None
    } else if daily.last().day == day {
        Some(daily.last())
    } else {
        last_on(daily.drop_last(), day)
    }
}

/// The activity point for a day: the reviews finished, and the share right.
pub open spec fn point_on(daily: Seq<DayActivity>, day: int) -> DayPoint {
    match last_on(daily, day) {
        Some(d) => DayPoint {
            day: day as i32,
            count: d.reviews,
            share: if d.total > 0 {
                Some((d.correct, d.total))
            } else {
                None
            },
        },
        None => DayPoint { day: day as i32, count: 0, share: None },
    }
}

/// The points for `n` days in a row from `first`.
pub open spec fn points(daily: Seq<DayActivity>, first: int, n: int) -> Seq<DayPoint> {
    Seq::new(n as nat, |j: int| point_on(daily, first + j))
}

fn day_entry(daily: &Vec<DayActivity>, day: i32) -> (r: Option<DayActivity>)
    ensures
        r == last_on(daily@, day as int),
{
    let mut k: usize = daily.len();
    assert(daily@.take(k as int) =~= daily@);
    while k > 0
        invariant
            k <= daily.len(),
            last_on(daily@, day as int) == last_on(daily@.take(k as int), day as int),
        decreases k,
    {
        proof {
            assert(daily@.take(k as int).drop_last() =~= daily@.take(k - 1));
        }
        if daily[k - 1].day == day {
            return Some(daily[k - 1]);
        }
        k -= 1;
    }
    None
}

fn point_for(daily: &Vec<DayActivity>, day: i32) -> (r: DayPoint)
    ensures
        r == point_on(daily@, day as int),
{
    match day_entry(daily, day) {
        Some(d) => DayPoint {
            day,
            count: d.reviews,
            share: if d.total > 0 {
                Some((d.correct, d.total))
            } else {
                None
            },
        },
        None => DayPoint { day, count: 0, share: None },
    }
}

/// `n` days of points in a row, from `first`.
fn points_from(daily: &Vec<DayActivity>, first: i32, n: i32) -> (r: Vec<DayPoint>)
    requires
        n >= 0,
        first + n - 1 <= i32::MAX,
    ensures
        r@ == points(daily@, first as int, n as int),
{
    let mut out: Vec<DayPoint> = Vec::new();
    let mut j: i32 = 0;
    while j < n
        invariant
            0 <= j <= n,
            first + n - 1 <= i32::MAX,
            out@ =~= points(daily@, first as int, j as int),
        decreases n - j,
    {
        let p = point_for(daily, first + j);
        out.push(p);
        j += 1;
        proof {
            assert(out@ =~= points(daily@, first as int, j as int));
        }
    }
    out
}

/// The last thirty days of activity, oldest first, today last, with a point
/// for every day whether anything happened or not.
pub fn activity(daily: &Vec<DayActivity>, today: i32) -> (r: Vec<DayPoint>)
    requires
        today >= i32::MIN + ACTIVITY_DAYS,
    ensures
        r@ == points(daily@, today - (ACTIVITY_DAYS - 1), ACTIVITY_DAYS as int),
{
    points_from(daily, today - (ACTIVITY_DAYS - 1), ACTIVITY_DAYS)
}

/// The first day of the year grid: a year back from today, wound back to a
/// Monday so the grid starts a clean week.
pub open spec fn year_start(today: int) -> int {
    week_start(today - YEAR_DAYS)
}

/// Days in the window that have activity recorded.
pub open spec fn active_in(daily: Seq<DayActivity>, first: int) -> spec_fn(int) -> int {
    |j: int|
        if last_on(daily, first + j) is Some {
            1int
        } else {
            0int
        }
}

/// The year grid, Monday first and today last, and how many of its days had
/// any activity.
pub fn year(daily: &Vec<DayActivity>, today: i32) -> (r: (Vec<DayPoint>, i64))
    requires
        today >= i32::MIN + YEAR_DAYS + 7,
    ensures
        r.0@ == points(daily@, year_start(today as int), today - year_start(today as int) + 1),
        r.1 == sum_to(active_in(daily@, year_start(today as int)), today - year_start(today as int) + 1),
{
    let ghost w = year_start(today as int);
    let mut start: i32 = today - YEAR_DAYS;
    assert(0 <= (start - 1) % 7 < 7);
    while !monday(start)
        invariant
            w == year_start(today as int),
            week_start(start as int) == w,
            w <= start <= today - YEAR_DAYS,
            w >= today - YEAR_DAYS - 6,
            today >= i32::MIN + YEAR_DAYS + 7,
        decreases start - w,
    {
        proof {
            assert((start - 1) % 7 != 0);
            assert(start > w);
            assert((start - 2) % 7 == (start - 1) % 7 - 1);
        }
        start -= 1;
    }
    let n: i32 = today - start + 1;
    let grid = points_from(daily, start, n);
    let ghost f = active_in(daily@, w);
    let mut studied: i64 = 0;
    let mut j: usize = 0;
    while j < grid.len()
        invariant
            j <= grid.len(),
            grid@ == points(daily@, start as int, n as int),
            start == w,
            f == active_in(daily@, w),
            studied == sum_to(f, j as int),
            0 <= studied <= j,
            grid.len() == n,
            n == today - start + 1,
            n <= 400,
        decreases grid.len() - j,
    {
        proof {
            assert(grid@[j as int] == point_on(daily@, start + j));
            assert(grid@[j as int].day == start + j);
        }
        if day_entry(daily, grid[j].day).is_some() {
            studied = studied + 1;
        }
        j += 1;
    }
    (grid, studied)
}

// ---------------------------------------------------------------- sums

proof fn lemma_sum_i64(f: spec_fn(int) -> int, n: int)
    requires
        n >= 0,
        forall|i: int| 0 <= i < n ==> i64::MIN <= #[trigger] f(i) <= i64::MAX,
    ensures
        n * i64::MIN <= sum_to(f, n) <= n * i64::MAX,
    decreases n,
{
    if n > 0 {
        lemma_sum_i64(f, n - 1);
    }
}

// ---------------------------------------------------------------- forecast

/// What the forecast rows say is due on a day: the later row stands when a
/// day is listed twice.
pub open spec fn due_count_on(rows: Seq<(i32, i64)>, day: int) -> Option<i64>
    decreases rows.len(),
{
    if rows.len() == 0 {
        None
    } else if rows.last().0 == day {
        Some(rows.last().1)
    } else {
        due_count_on(rows.drop_last(), day)
    }
}

/// Row `m` is the one that stands for its day: no later row lists the same day.
pub open spec fn stands(rows: Seq<(i32, i64)>, m: int) -> bool {
    forall|j: int| m < j < rows.len() ==> (#[trigger] rows[j]).0 != rows[m].0
}

pub open spec fn overdue(rows: Seq<(i32, i64)>, today: int) -> spec_fn(int) -> int {
    |m: int|
        if rows[m].0 <= today && stands(rows, m) {
            rows[m].1 as int
        } else {
            0int
        }
}

pub open spec fn never_studied(states: Seq<TopicStateV>) -> spec_fn(int) -> int {
    |i: int|
        if states[i].due is None {
            1int
        } else {
            0int
        }
}

/// What waits today: everything due today or overdue, and every topic never
/// studied.
pub open spec fn waiting_today(rows: Seq<(i32, i64)>, states: Seq<TopicStateV>, today: int) -> int {
    sum_to(overdue(rows, today), rows.len() as int) + sum_to(never_studied(states), states.len() as int)
}

/// The forecast: today with everything waiting, then what falls due on each
/// of the following days.
pub open spec fn forecast_points(rows: Seq<(i32, i64)>, states: Seq<TopicStateV>, today: int) -> Seq<DayPoint> {
    Seq::new(
        FORECAST_DAYS as nat,
        |j: int|
            DayPoint {
                day: (today + j) as i32,
                count: if j == 0 {
                    waiting_today(rows, states, today) as i64
                } else {
                    match due_count_on(rows, today + j) {
                        Some(c) => c,
                        None => 0,
                    }
                },
                share: None,
            },
    )
}

fn due_lookup(rows: &Vec<(i32, i64)>, day: i32) -> (r: Option<i64>)
    ensures
        r == due_count_on(rows@, day as int),
{
    let mut k: usize = rows.len();
    assert(rows@.take(k as int) =~= rows@);
    while k > 0
        invariant
            k <= rows.len(),
            due_count_on(rows@, day as int) == due_count_on(rows@.take(k as int), day as int),
        decreases k,
    {
        proof {
            assert(rows@.take(k as int).drop_last() =~= rows@.take(k - 1));
        }
        if rows[k - 1].0 == day {
            return Some(rows[k - 1].1);
        }
        k -= 1;
    }
    None
}

fn row_stands(rows: &Vec<(i32, i64)>, m: usize) -> (r: bool)
    requires
        m < rows.len(),
    ensures
        r == stands(rows@, m as int),
{
    let mut j: usize = m + 1;
    while j < rows.len()
        invariant
            m < j <= rows.len(),
            forall|i: int| m < i < j ==> (#[trigger] rows@[i]).0 != rows@[m as int].0,
        decreases rows.len() - j,
    {
        if rows[j].0 == rows[m].0 {
            return false;
        }
        j += 1;
    }
    true
}

/// The next fourteen days of work, today first. `rows` lists days with how
/// many topics fall due on each.
pub fn forecast(rows: &Vec<(i32, i64)>, states: &Vec<TopicState>, today: i32) -> (r: Vec<DayPoint>)
    requires
        today <= i32::MAX - FORECAST_DAYS,
        i64::MIN <= waiting_today(rows@, states_view(states@), today as int) <= i64::MAX,
    ensures
        r@ == forecast_points(rows@, states_view(states@), today as int),
{
    let ghost f = overdue(rows@, today as int);
    let ghost g = never_studied(states_view(states@));
    let mut sum: i128 = 0;
    let mut m: usize = 0;
    while m < rows.len()
        invariant
            m <= rows.len(),
            f == overdue(rows@, today as int),
            sum == sum_to(f, m as int),
        decreases rows.len() - m,
    {
        proof {
            assert forall|i: int| 0 <= i < m + 1 implies i64::MIN <= #[trigger] f(i) <= i64::MAX by {}
            lemma_sum_i64(f, m + 1);
        }
        if rows[m].0 <= today && row_stands(rows, m) {
            sum = sum + rows[m].1 as i128;
        }
        m += 1;
    }
    let mut never: i128 = 0;
    let mut i: usize = 0;
    while i < states.len()
        invariant
            i <= states.len(),
            g == never_studied(states_view(states@)),
            never == sum_to(g, i as int),
            0 <= never <= i,
        decreases states.len() - i,
    {
        proof {
            assert(states_view(states@)[i as int] == states@[i as int]@);
        }
        if states[i].due.is_none() {
            never = never + 1;
        }
        i += 1;
    }
    let waiting: i64 = (sum + never) as i64;
    let mut out: Vec<DayPoint> = Vec::new();
    let mut j: i32 = 0;
    while j < FORECAST_DAYS
        invariant
            0 <= j <= FORECAST_DAYS,
            today <= i32::MAX - FORECAST_DAYS,
            waiting == waiting_today(rows@, states_view(states@), today as int),
            out@ =~= forecast_points(rows@, states_view(states@), today as int).take(j as int),
        decreases FORECAST_DAYS - j,
    {
        let count = if j == 0 {
            waiting
        } else {
            match due_lookup(rows, today + j) {
                Some(c) => c,
                None => 0,
            }
        };
        out.push(DayPoint { day: today + j, count, share: None });
        j += 1;
        proof {
            assert(out@ =~= forecast_points(rows@, states_view(states@), today as int).take(j as int));
        }
    }
    out
}

// ---------------------------------------------------------------- totals

/// What one topic's reviews add up to.
#[derive(Debug)]
pub struct TopicRecord {
    pub topic_id: String,
    pub reviews: i64,
    pub correct: i64,
    pub total: i64,
}

pub struct TotalsV {
    pub topics_total: int,
    pub topics_studied: int,
    pub topics_due: int,
    pub reviews_total: int,
    pub blanks_total: int,
    pub blanks_correct: int,
    pub today_reviews: int,
    pub today_blanks: int,
    pub today_ms: int,
}

/// The headline numbers of the statistics page.
#[derive(Debug, Clone, Copy, PartialEq, Eq)]
pub struct Totals {
    pub topics_total: i64,
    pub topics_studied: i64,
    pub topics_due: i64,
    pub reviews_total: i64,
    pub blanks_total: i64,
    pub blanks_correct: i64,
    pub today_reviews: i64,
    pub today_blanks: i64,
    pub today_ms: i64,
}

impl View for Totals {
    type V = TotalsV;

    open spec fn view(&self) -> TotalsV {
        TotalsV {
            topics_total: self.topics_total as int,
            topics_studied: self.topics_studied as int,
            topics_due: self.topics_due as int,
            reviews_total: self.reviews_total as int,
            blanks_total: self.blanks_total as int,
            blanks_correct: self.blanks_correct as int,
            today_reviews: self.today_reviews as int,
            today_blanks: self.today_blanks as int,
            today_ms: self.today_ms as int,
        }
    }
}

pub open spec fn due_states(states: Seq<TopicStateV>, today: int) -> spec_fn(int) -> int {
    |i: int|
        if due_on(states[i], today) {
            1int
        } else {
            0int
        }
}

pub open spec fn reviews_of(daily: Seq<DayActivity>) -> spec_fn(int) -> int {
    |i: int| daily[i].reviews as int
}

pub open spec fn blanks_of(daily: Seq<DayActivity>) -> spec_fn(int) -> int {
    |i: int| daily[i].total as int
}

pub open spec fn right_of(daily: Seq<DayActivity>) -> spec_fn(int) -> int {
    |i: int| daily[i].correct as int
}

/// The headline numbers: topics in the pack, topics with a record, topics
/// due; reviews, blanks and right blanks over every day; and what today
/// brought so far.
pub open spec fn totals_of(
    topics: int,
    records: int,
    states: Seq<TopicStateV>,
    daily: Seq<DayActivity>,
    today: int,
) -> TotalsV {
    let t = last_on(daily, today);
    TotalsV {
        topics_total: topics,
        topics_studied: records,
        topics_due: sum_to(due_states(states, today), states.len() as int),
        reviews_total: sum_to(reviews_of(daily), daily.len() as int),
        blanks_total: sum_to(blanks_of(daily), daily.len() as int),
        blanks_correct: sum_to(right_of(daily), daily.len() as int),
        today_reviews: match t {
            Some(d) => d.reviews as int,
            None => 0,
        },
        today_blanks: match t {
            Some(d) => d.total as int,
            None => 0,
        },
        today_ms: match t {
            Some(d) => d.elapsed_ms as int,
            None => 0,
        },
    }
}

fn column_sum(daily: &Vec<DayActivity>, col: u8) -> (r: i128)
    requires
        col < 3,
    ensures
        r == sum_to(
            if col == 0 {
                reviews_of(daily@)
            } else if col == 1 {
                blanks_of(daily@)
            } else {
                right_of(daily@)
            },
            daily.len() as int,
        ),
{
    let ghost f = if col == 0 {
        reviews_of(daily@)
    } else if col == 1 {
        blanks_of(daily@)
    } else {
        right_of(daily@)
    };
    let mut sum: i128 = 0;
    let mut k: usize = 0;
    while k < daily.len()
        invariant
            k <= daily.len(),
            col < 3,
            f == (if col == 0 {
                reviews_of(daily@)
            } else if col == 1 {
                blanks_of(daily@)
            } else {
                right_of(daily@)
            }),
            sum == sum_to(f, k as int),
        decreases daily.len() - k,
    {
        proof {
            assert forall|i: int| 0 <= i < k + 1 implies i64::MIN <= #[trigger] f(i) <= i64::MAX by {}
            lemma_sum_i64(f, k + 1);
        }
        let d = daily[k];
        let v: i64 = if col == 0 {
            d.reviews
        } else if col == 1 {
            d.total
        } else {
            d.correct
        };
        sum = sum + v as i128;
        k += 1;
    }
    sum
}

/// The headline numbers of the statistics page.
pub fn totals(
    pack: &Pack,
    records: &Vec<TopicRecord>,
    states: &Vec<TopicState>,
    daily: &Vec<DayActivity>,
    today: i32,
) -> (r: Totals)
    requires
        pack.topics.len() <= i64::MAX,
        records.len() <= i64::MAX,
        states.len() <= i64::MAX,
        sum_to(reviews_of(daily@), daily.len() as int) <= i64::MAX,
        sum_to(blanks_of(daily@), daily.len() as int) <= i64::MAX,
        sum_to(right_of(daily@), daily.len() as int) <= i64::MAX,
        sum_to(reviews_of(daily@), daily.len() as int) >= i64::MIN,
        sum_to(blanks_of(daily@), daily.len() as int) >= i64::MIN,
        sum_to(right_of(daily@), daily.len() as int) >= i64::MIN,
    ensures
        r@ == totals_of(
            pack@.topics.len() as int,
            records@.len() as int,
            states_view(states@),
            daily@,
            today as int,
        ),
{
    let ghost h = due_states(states_view(states@), today as int);
    let mut due: i64 = 0;
    let mut i: usize = 0;
    while i < states.len()
        invariant
            i <= states.len(),
            states.len() <= i64::MAX,
            h == due_states(states_view(states@), today as int),
            due == sum_to(h, i as int),
            0 <= due <= i,
        decreases states.len() - i,
    {
        proof {
            assert(states_view(states@)[i as int] == states@[i as int]@);
        }
        if states[i].is_due(today) {
            due = due + 1;
        }
        i += 1;
    }
    let reviews = column_sum(daily, 0);
    let blanks = column_sum(daily, 1);
    let right = column_sum(daily, 2);
    let (today_reviews, today_blanks, today_ms) = match day_entry(daily, today) {
        Some(d) => (d.reviews, d.total, d.elapsed_ms),
        None => (0, 0, 0),
    };
    Totals {
        topics_total: pack.topics.len() as i64,
        topics_studied: records.len() as i64,
        topics_due: due,
        reviews_total: reviews as i64,
        blanks_total: blanks as i64,
        blanks_correct: right as i64,
        today_reviews,
        today_blanks,
        today_ms,
    }
}

// ---------------------------------------------------------------- hardest topics

pub struct RecordV {
    pub topic_id: Seq<char>,
    pub reviews: int,
    pub correct: int,
    pub total: int,
}

impl View for TopicRecord {
    type V = RecordV;

    open spec fn view(&self) -> RecordV {
        RecordV {
            topic_id: self.topic_id@,
            reviews: self.reviews as int,
            correct: self.correct as int,
            total: self.total as int,
        }
    }
}

pub struct TopicScoreV {
    pub id: Seq<char>,
    pub title: Seq<char>,
    pub cefr: Level,
    pub correct: int,
    pub total: int,
    pub reviews: int,
    pub lapses: int,
}

/// A studied topic with its accuracy, correct out of total, and its history.
#[derive(Debug)]
pub struct TopicScore {
    pub id: String,
    pub title: String,
    pub cefr: Level,
    pub correct: i64,
    pub total: i64,
    pub reviews: i64,
    pub lapses: i64,
}

impl View for TopicScore {
    type V = TopicScoreV;

    open spec fn view(&self) -> TopicScoreV {
        TopicScoreV {
            id: self.id@,
            title: self.title@,
            cefr: self.cefr,
            correct: self.correct as int,
            total: self.total as int,
            reviews: self.reviews as int,
            lapses: self.lapses as int,
        }
    }
}

/// The accuracy as a fraction with a positive denominator: correct out of
/// total, or none right out of one when nothing was answered.
pub open spec fn share_num(s: TopicScoreV) -> int {
    if s.total > 0 {
        s.correct
    } else {
        0
    }
}

pub open spec fn share_den(s: TopicScoreV) -> int {
    if s.total > 0 {
        s.total
    } else {
        1
    }
}

/// `a` ranks as harder than `b`: a lower accuracy, or the same accuracy with
/// more reviews behind it, so one bad sheet does not outrank a long struggle.
pub open spec fn harder(a: TopicScoreV, b: TopicScoreV) -> bool {
    ||| share_num(a) * share_den(b) < share_num(b) * share_den(a)
    ||| (share_num(a) * share_den(b) == share_num(b) * share_den(a) && a.reviews > b.reviews)
}

pub open spec fn first_state(states: Seq<TopicStateV>, id: Seq<char>) -> Option<int> {
    first_where(states, |s: TopicStateV| s.topic_id == id)
}

/// The score of a record, when its topic is in the pack: the first topic and
/// the first stored state with its id.
pub open spec fn score_of(r: RecordV, topics: Seq<TopicV>, states: Seq<TopicStateV>) -> Option<TopicScoreV> {
    match topic_with(topics, r.topic_id) {
        None => None,
        Some(i) => Some(
            TopicScoreV {
                id: topics[i].id,
                title: topics[i].title,
                cefr: topics[i].cefr,
                correct: r.correct,
                total: r.total,
                reviews: r.reviews,
                lapses: match first_state(states, r.topic_id) {
                    Some(j) => states[j].lapses,
                    None => 0,
                },
            },
        ),
    }
}

/// The scores of the records whose topic is in the pack, in record order.
pub open spec fn scored(records: Seq<RecordV>, topics: Seq<TopicV>, states: Seq<TopicStateV>) -> Seq<TopicScoreV>
    decreases records.len(),
{
    if records.len() == 0 {
        seq![]
    } else {
        let prev = scored(records.drop_last(), topics, states);
        match score_of(records.last(), topics, states) {
            Some(sc) => prev.push(sc),
            None => prev,
        }
    }
}

/// `r` is `c` ordered hardest first, with equally hard topics in their order
/// in `c`; `r[a]` is `c[from[a]]`.
pub open spec fn ranked_by(r: Seq<TopicScoreV>, c: Seq<TopicScoreV>, from: Seq<int>) -> bool {
    &&& r.len() == c.len()
    &&& from.len() == r.len()
    &&& forall|a: int| 0 <= a < r.len() ==> 0 <= #[trigger] from[a] < c.len() && r[a] == c[from[a]]
    &&& forall|a: int, b: int| 0 <= a < b < r.len() ==> #[trigger] from[a] != #[trigger] from[b]
    &&& forall|a: int, b: int| 0 <= a < b < r.len() ==> !harder(#[trigger] r[b], #[trigger] r[a])
    &&& forall|a: int, b: int|
        0 <= a < b < r.len() && !harder(#[trigger] r[a], #[trigger] r[b]) ==> from[a] < from[b]
}

pub open spec fn scores_view(v: Seq<TopicScore>) -> Seq<TopicScoreV> {
    v.map_values(|s: TopicScore| s@)
}

pub open spec fn records_view(v: Seq<TopicRecord>) -> Seq<RecordV> {
    v.map_values(|r: TopicRecord| r@)
}

proof fn lemma_cross_lt(nx: int, dx: int, ny: int, dy: int, nz: int, dz: int)
    by (nonlinear_arith)
    requires
        dx > 0,
        dy > 0,
        dz > 0,
        nx * dy < ny * dx,
        ny * dz <= nz * dy,
    ensures
        nx * dz < nz * dx,
{
}

proof fn lemma_cross_lt2(nx: int, dx: int, ny: int, dy: int, nz: int, dz: int)
    by (nonlinear_arith)
    requires
        dx > 0,
        dy > 0,
        dz > 0,
        nx * dy == ny * dx,
        ny * dz < nz * dy,
    ensures
        nx * dz < nz * dx,
{
}

proof fn lemma_cross_eq(nx: int, dx: int, ny: int, dy: int, nz: int, dz: int)
    by (nonlinear_arith)
    requires
        dx > 0,
        dy > 0,
        dz > 0,
        nx * dy == ny * dx,
        ny * dz == nz * dy,
    ensures
        nx * dz == nz * dx,
{
}

/// Whatever is harder than `y` is harder than anything `y` is not easier than.
proof fn lemma_harder_through(x: TopicScoreV, y: TopicScoreV, z: TopicScoreV)
    requires
        harder(x, y),
        !harder(z, y),
    ensures
        harder(x, z),
{
    let (nx, dx) = (share_num(x), share_den(x));
    let (ny, dy) = (share_num(y), share_den(y));
    let (nz, dz) = (share_num(z), share_den(z));
    assert(ny * dz <= nz * dy);
    if nx * dy < ny * dx {
        lemma_cross_lt(nx, dx, ny, dy, nz, dz);
    } else if ny * dz < nz * dy {
        lemma_cross_lt2(nx, dx, ny, dy, nz, dz);
    } else {
        lemma_cross_eq(nx, dx, ny, dy, nz, dz);
    }
}

fn harder_exec(a: &TopicScore, b: &TopicScore) -> (r: bool)
    ensures
        r == harder(a@, b@),
{
    let (na, da): (i128, i128) = if a.total > 0 {
        (a.correct as i128, a.total as i128)
    } else {
        (0, 1)
    };
    let (nb, db): (i128, i128) = if b.total > 0 {
        (b.correct as i128, b.total as i128)
    } else {
        (0, 1)
    };
    assert(-0x4000_0000_0000_0000_0000_0000_0000_0000 <= na * db <= 0x4000_0000_0000_0000_0000_0000_0000_0000) by (nonlinear_arith)
        requires
            -0x8000_0000_0000_0000 <= na <= 0x7fff_ffff_ffff_ffff,
            1 <= db <= 0x7fff_ffff_ffff_ffff,
    ;
    assert(-0x4000_0000_0000_0000_0000_0000_0000_0000 <= nb * da <= 0x4000_0000_0000_0000_0000_0000_0000_0000) by (nonlinear_arith)
        requires
            -0x8000_0000_0000_0000 <= nb <= 0x7fff_ffff_ffff_ffff,
            1 <= da <= 0x7fff_ffff_ffff_ffff,
    ;
    let left = na * db;
    let right = nb * da;
    left < right || (left == right && a.reviews > b.reviews)
}

fn first_state_lapses(states: &Vec<TopicState>, id: &String) -> (r: i64)
    ensures
        r == match first_state(states_view(states@), id@) {
            Some(j) => states_view(states@)[j].lapses,
            None => 0,
        },
{
    let ghost sv = states_view(states@);
    let ghost p = |s: TopicStateV| s.topic_id == id@;
    let want = chars_of(id.as_str());
    let mut k: usize = 0;
    while k < states.len()
        invariant
            k <= states.len(),
            sv == states_view(states@),
            p == (|s: TopicStateV| s.topic_id == id@),
            want@ == id@,
            forall|m: int| 0 <= m < k ==> !p(#[trigger] sv[m]),
        decreases states.len() - k,
    {
        assert(sv[k as int] == states@[k as int]@);
        if same_chars(&chars_of(states[k].topic_id.as_str()), &want) {
            proof {
                lemma_first_where_at(sv, p, k as int);
            }
            return states[k].lapses;
        }
        k += 1;
    }
    proof {
        lemma_first_where_none(sv, p);
    }
    0
}

fn score_for(record: &TopicRecord, pack: &Pack, states: &Vec<TopicState>) -> (r: Option<TopicScore>)
    ensures
        match score_of(record@, pack@.topics, states_view(states@)) {
            None => r is None,
            Some(sc) => r matches Some(x) && x@ == sc,
        },
{
    match pack.topic(record.topic_id.as_str()) {
        None => None,
        Some(topic) => Some(
            TopicScore {
                id: topic.id.clone(),
                title: topic.title.clone(),
                cefr: topic.cefr,
                correct: record.correct,
                total: record.total,
                reviews: record.reviews,
                lapses: first_state_lapses(states, &record.topic_id),
            },
        ),
    }
}

/// Putting `x`, which came after everything placed so far, at `p`, where
/// `x` is harder than the entry at `p` and than none before it, keeps the
/// list ordered and stable.
proof fn lemma_insert_ranked(
    o: Seq<TopicScoreV>,
    from: Seq<int>,
    o2: Seq<TopicScoreV>,
    from2: Seq<int>,
    x: TopicScoreV,
    p: int,
    c: Seq<TopicScoreV>,
)
    requires
        0 <= p <= o.len(),
        o.len() < c.len(),
        x == c[o.len() as int],
        from.len() == o.len(),
        o2.len() == o.len() + 1,
        from2.len() == o2.len(),
        forall|a: int| 0 <= a < p ==> o2[a] == o[a] && from2[a] == from[a],
        o2[p] == x,
        from2[p] == o.len(),
        forall|a: int| p < a < o2.len() ==> o2[a] == o[a - 1] && from2[a] == from[a - 1],
        forall|a: int| 0 <= a < p ==> !harder(x, #[trigger] o[a]),
        p < o.len() ==> harder(x, o[p]),
        forall|a: int| 0 <= a < o.len() ==> 0 <= #[trigger] from[a] < o.len() && o[a] == c[from[a]],
        forall|a: int, b: int| 0 <= a < b < o.len() ==> #[trigger] from[a] != #[trigger] from[b],
        forall|a: int, b: int| 0 <= a < b < o.len() ==> !harder(#[trigger] o[b], #[trigger] o[a]),
        forall|a: int, b: int|
            0 <= a < b < o.len() && !harder(#[trigger] o[a], #[trigger] o[b]) ==> from[a] < from[b],
    ensures
        forall|a: int| 0 <= a < o2.len() ==> 0 <= #[trigger] from2[a] < o2.len() && o2[a] == c[from2[a]],
        forall|a: int, b: int| 0 <= a < b < o2.len() ==> #[trigger] from2[a] != #[trigger] from2[b],
        forall|a: int, b: int| 0 <= a < b < o2.len() ==> !harder(#[trigger] o2[b], #[trigger] o2[a]),
        forall|a: int, b: int|
            0 <= a < b < o2.len() && !harder(#[trigger] o2[a], #[trigger] o2[b]) ==> from2[a] < from2[b],
{
    let n = o.len() as int;
    // Everything from `p` on is strictly easier than `x`.
    assert forall|q: int| p <= q < n implies harder(x, #[trigger] o[q]) by {
        if q > p {
            assert(!harder(o[q], o[p]));
            lemma_harder_through(x, o[p], o[q]);
        }
    }
    assert forall|a: int| 0 <= a < o2.len() implies 0 <= #[trigger] from2[a] < o2.len() && o2[a] == c[from2[a]] by {
        if a < p {
            assert(o2[a] == o[a] && from2[a] == from[a]);
        } else if a > p {
            assert(o2[a] == o[a - 1] && from2[a] == from[a - 1]);
        }
    }
    assert forall|a: int, b: int| 0 <= a < b < o2.len() implies #[trigger] from2[a] != #[trigger] from2[b] by {
        if a < p && b < p {
        } else if a < p && b == p {
            assert(from2[a] == from[a]);
        } else if a < p {
            assert(from2[a] == from[a] && from2[b] == from[b - 1]);
        } else if a == p {
            assert(from2[b] == from[b - 1]);
        } else {
            assert(from2[a] == from[a - 1] && from2[b] == from[b - 1]);
        }
    }
    assert forall|a: int, b: int| 0 <= a < b < o2.len() implies !harder(#[trigger] o2[b], #[trigger] o2[a]) by {
        if b < p {
            assert(o2[a] == o[a] && o2[b] == o[b]);
        } else if b == p {
            assert(o2[a] == o[a]);
        } else if a < p {
            assert(o2[a] == o[a] && o2[b] == o[b - 1]);
        } else if a == p {
            assert(o2[b] == o[b - 1]);
            assert(harder(x, o[b - 1]));
        } else {
            assert(o2[a] == o[a - 1] && o2[b] == o[b - 1]);
        }
    }
    assert forall|a: int, b: int|
        0 <= a < b < o2.len() && !harder(#[trigger] o2[a], #[trigger] o2[b]) implies from2[a] < from2[b] by {
        if b < p {
            assert(o2[a] == o[a] && o2[b] == o[b]);
        } else if b == p {
            assert(from2[a] == from[a]);
        } else if a < p {
            assert(o2[a] == o[a] && o2[b] == o[b - 1]);
            assert(from2[a] == from[a] && from2[b] == from[b - 1]);
        } else if a == p {
            assert(o2[b] == o[b - 1]);
            assert(harder(x, o[b - 1]));
        } else {
            assert(o2[a] == o[a - 1] && o2[b] == o[b - 1]);
            assert(from2[a] == from[a - 1] && from2[b] == from[b - 1]);
        }
    }
}

/// Entry `y` of `c` is ranked ahead of entry `x`: it is harder, or equally
/// hard and earlier in `c`.
pub open spec fn ranks_ahead(c: Seq<TopicScoreV>, y: int, x: int) -> bool {
    harder(c[y], c[x]) || (!harder(c[x], c[y]) && y < x)
}

proof fn lemma_ranks_ahead_trans(c: Seq<TopicScoreV>, a: int, b: int, d: int)
    requires
        ranks_ahead(c, a, b),
        ranks_ahead(c, b, d),
    ensures
        ranks_ahead(c, a, d),
{
    let (x, y, z) = (c[a], c[b], c[d]);
    if harder(x, y) {
        if harder(y, z) {
            lemma_harder_through(x, y, z);
        } else {
            lemma_harder_through(x, y, z);
        }
    } else {
        if harder(y, z) {
            if !harder(x, z) {
                lemma_harder_through(y, z, x);
            }
        } else {
            if harder(x, z) {
                lemma_harder_through(x, z, y);
            }
            if harder(z, x) {
                lemma_harder_through(z, x, y);
            }
        }
    }
}

/// An injective list of `n` positions below `n` holds every one of them.
proof fn lemma_every_position(f: Seq<int>, n: int)
    requires
        f.len() == n,
        forall|a: int| 0 <= a < n ==> 0 <= #[trigger] f[a] < n,
        forall|a: int, b: int| 0 <= a < b < n ==> #[trigger] f[a] != #[trigger] f[b],
    ensures
        forall|x: int| 0 <= x < n ==> f.contains(x),
{
    assert(f.no_duplicates()) by {
        assert forall|i: int, j: int| 0 <= i < f.len() && 0 <= j < f.len() && i != j implies f[i] != f[j] by {
            if i < j {
                assert(f[i] != f[j]);
            } else {
                assert(f[j] != f[i]);
            }
        }
    }
    f.unique_seq_to_set();
    vstd::set_lib::lemma_int_range(0, n);
    let range = vstd::set_lib::set_int_range(0, n);
    assert(f.to_set().subset_of(range)) by {
        assert forall|x: int| f.to_set().contains(x) implies range.contains(x) by {
            assert(f.contains(x));
            let a = choose|a: int| 0 <= a < f.len() && f[a] == x;
            assert(0 <= f[a] < n);
        }
    }
    vstd::seq_lib::seq_to_set_is_finite(f);
    vstd::set_lib::lemma_subset_equality(f.to_set(), range);
    assert forall|x: int| 0 <= x < n implies f.contains(x) by {
        assert(range.contains(x));
        assert(f.to_set().contains(x));
    }
}

/// Two lists of positions ordered by rank, holding the same positions, are
/// the same list.
proof fn lemma_ranked_same_positions(c: Seq<TopicScoreV>, f1: Seq<int>, f2: Seq<int>)
    requires
        forall|i: int, j: int| 0 <= i < j < f1.len() ==> ranks_ahead(c, #[trigger] f1[i], #[trigger] f1[j]),
        forall|i: int, j: int| 0 <= i < j < f2.len() ==> ranks_ahead(c, #[trigger] f2[i], #[trigger] f2[j]),
        forall|x: int| f1.contains(x) <==> f2.contains(x),
    ensures
        f1 == f2,
    decreases f1.len() + f2.len(),
{
    if f1.len() == 0 || f2.len() == 0 {
        if f1.len() > 0 {
            assert(f1.contains(f1[0]));
        }
        if f2.len() > 0 {
            assert(f2.contains(f2[0]));
        }
        assert(f1 =~= f2);
    } else {
        let (a0, b0) = (f1[0], f2[0]);
        assert(f1.contains(a0));
        assert(f2.contains(b0));
        let j = choose|j: int| 0 <= j < f2.len() && f2[j] == a0;
        let i = choose|i: int| 0 <= i < f1.len() && f1[i] == b0;
        if i > 0 && j > 0 {
            assert(ranks_ahead(c, a0, b0));
            assert(ranks_ahead(c, b0, a0));
            lemma_ranks_ahead_trans(c, a0, b0, a0);
        }
        assert(a0 == b0);
        let g1 = f1.drop_first();
        let g2 = f2.drop_first();
        assert forall|x: int| g1.contains(x) <==> g2.contains(x) by {
            if g1.contains(x) {
                let k = choose|k: int| 0 <= k < g1.len() && g1[k] == x;
                assert(f1[k + 1] == x);
                assert(ranks_ahead(c, a0, x));
                assert(x != a0);
                assert(f2.contains(x));
                let m = choose|m: int| 0 <= m < f2.len() && f2[m] == x;
                assert(m != 0);
                assert(g2[m - 1] == x);
            }
            if g2.contains(x) {
                let k = choose|k: int| 0 <= k < g2.len() && g2[k] == x;
                assert(f2[k + 1] == x);
                assert(ranks_ahead(c, b0, x));
                assert(x != b0);
                assert(f1.contains(x));
                let m = choose|m: int| 0 <= m < f1.len() && f1[m] == x;
                assert(m != 0);
                assert(g1[m - 1] == x);
            }
        }
        assert forall|i: int, j: int| 0 <= i < j < g1.len() implies ranks_ahead(c, #[trigger] g1[i], #[trigger] g1[j]) by {
            assert(g1[i] == f1[i + 1] && g1[j] == f1[j + 1]);
        }
        assert forall|i: int, j: int| 0 <= i < j < g2.len() implies ranks_ahead(c, #[trigger] g2[i], #[trigger] g2[j]) by {
            assert(g2[i] == f2[i + 1] && g2[j] == f2[j + 1]);
        }
        lemma_ranked_same_positions(c, g1, g2);
        assert(f1 =~= seq![a0] + g1);
        assert(f2 =~= seq![b0] + g2);
    }
}

/// The ranking is fully decided by the scores ranked: two lists that both
/// rank the same scores hardest first, equally hard ones in their first
/// order, are the same list.
pub proof fn law_ranking_is_unique(
    r1: Seq<TopicScoreV>,
    f1: Seq<int>,
    r2: Seq<TopicScoreV>,
    f2: Seq<int>,
    c: Seq<TopicScoreV>,
)
    requires
        ranked_by(r1, c, f1),
        ranked_by(r2, c, f2),
    ensures
        r1 == r2,
{
    let n = c.len() as int;
    assert forall|i: int, j: int| 0 <= i < j < f1.len() implies ranks_ahead(c, #[trigger] f1[i], #[trigger] f1[j]) by {
        assert(r1[i] == c[f1[i]] && r1[j] == c[f1[j]]);
        assert(!harder(r1[j], r1[i]));
    }
    assert forall|i: int, j: int| 0 <= i < j < f2.len() implies ranks_ahead(c, #[trigger] f2[i], #[trigger] f2[j]) by {
        assert(r2[i] == c[f2[i]] && r2[j] == c[f2[j]]);
        assert(!harder(r2[j], r2[i]));
    }
    lemma_every_position(f1, n);
    lemma_every_position(f2, n);
    assert forall|x: int| f1.contains(x) <==> f2.contains(x) by {
        if f1.contains(x) {
            let a = choose|a: int| 0 <= a < f1.len() && f1[a] == x;
            assert(0 <= f1[a] < n);
        }
        if f2.contains(x) {
            let a = choose|a: int| 0 <= a < f2.len() && f2[a] == x;
            assert(0 <= f2[a] < n);
        }
    }
    lemma_ranked_same_positions(c, f1, f2);
    assert forall|a: int| 0 <= a < r1.len() implies r1[a] == r2[a] by {
        assert(r1[a] == c[f1[a]]);
        assert(r2[a] == c[f2[a]]);
    }
    assert(r1 =~= r2);
}

/// The scores of the studied topics, in record order.
fn scores(records: &Vec<TopicRecord>, pack: &Pack, states: &Vec<TopicState>) -> (r: Vec<TopicScore>)
    ensures
        scores_view(r@) == scored(records_view(records@), pack@.topics, states_view(states@)),
{
    let ghost rv = records_view(records@);
    let mut out: Vec<TopicScore> = Vec::new();
    let mut k: usize = 0;
    while k < records.len()
        invariant
            k <= records.len(),
            rv == records_view(records@),
            scores_view(out@) == scored(rv.take(k as int), pack@.topics, states_view(states@)),
        decreases records.len() - k,
    {
        proof {
            assert(rv.take(k + 1).drop_last() =~= rv.take(k as int));
            assert(rv.take(k + 1).last() == records@[k as int]@);
        }
        match score_for(&records[k], pack, states) {
            Some(sc) => {
                let ghost before = scores_view(out@);
                out.push(sc);
                proof {
                    assert(scores_view(out@) =~= before.push(out@[out@.len() - 1]@));
                }
            },
            None => {},
        }
        k += 1;
    }
    assert(rv.take(records.len() as int) =~= rv);
    out
}

/// The hardest topics, at most `TOP_N` of them: lowest accuracy first, ties
/// broken by how much evidence there is, and topics equal on both in record
/// order. A record whose topic is not in the pack is passed over.
pub fn hardest(records: &Vec<TopicRecord>, pack: &Pack, states: &Vec<TopicState>) -> (r: Vec<TopicScore>)
    ensures
        exists|full: Seq<TopicScoreV>, from: Seq<int>|
            ranked_by(full, scored(records_view(records@), pack@.topics, states_view(states@)), from)
                && scores_view(r@) == full.take(
                if full.len() < TOP_N {
                    full.len() as int
                } else {
                    TOP_N as int
                },
            ),
{
    let mut rest = scores(records, pack, states);
    let ghost c = scores_view(rest@);
    let n = rest.len();
    let mut out: Vec<TopicScore> = Vec::new();
    let ghost mut from: Seq<int> = seq![];
    let mut i: usize = 0;
    while i < n
        invariant
            i <= n,
            n == c.len(),
            scores_view(rest@) == c.skip(i as int),
            out@.len() == i,
            from.len() == i,
            forall|a: int|
                0 <= a < i ==> 0 <= #[trigger] from[a] < i && scores_view(out@)[a] == c[from[a]],
            forall|a: int, b: int| 0 <= a < b < i ==> #[trigger] from[a] != #[trigger] from[b],
            forall|a: int, b: int|
                0 <= a < b < i ==> !harder(
                    #[trigger] scores_view(out@)[b],
                    #[trigger] scores_view(out@)[a],
                ),
            forall|a: int, b: int|
                0 <= a < b < i && !harder(#[trigger] scores_view(out@)[a], #[trigger] scores_view(out@)[b])
                    ==> from[a] < from[b],
        decreases n - i,
    {
        let ghost o = scores_view(out@);
        let ghost before = rest@;
        proof {
            assert(scores_view(before).len() == before.len());
            assert(scores_view(before)[0] == c[i as int]);
        }
        let x = rest.remove(0);
        proof {
            assert(x@ == c[i as int]);
            assert(rest@ =~= before.subrange(1, before.len() as int));
            assert forall|j: int| 0 <= j < rest@.len() implies scores_view(rest@)[j] == c.skip(i + 1)[j] by {
                assert(rest@[j] == before[j + 1]);
                assert(scores_view(before)[j + 1] == c.skip(i as int)[j + 1]);
            }
            assert(scores_view(rest@) =~= c.skip(i + 1));
        }
        // The first entry `x` is harder than.
        let mut p: usize = 0;
        while p < out.len()
            invariant
                p <= out.len(),
                o == scores_view(out@),
                forall|a: int| 0 <= a < p ==> !harder(x@, #[trigger] o[a]),
            ensures
                p <= out.len(),
                forall|a: int| 0 <= a < p ==> !harder(x@, #[trigger] o[a]),
                p < out.len() ==> harder(x@, o[p as int]),
            decreases out.len() - p,
        {
            if harder_exec(&x, &out[p]) {
                break;
            }
            p += 1;
        }
        let ghost xv = x@;
        out.insert(p, x);
        proof {
            let o2 = scores_view(out@);
            let from2 = from.insert(p as int, i as int);
            from.insert_ensures(p as int, i as int);
            assert forall|a: int| 0 <= a < p implies o2[a] == o[a] && from2[a] == from[a] by {}
            assert forall|a: int| p < a < o2.len() implies o2[a] == o[a - 1] && from2[a] == from[a - 1] by {}
            lemma_insert_ranked(o, from, o2, from2, xv, p as int, c);
            from = from2;
        }
        i += 1;
    }
    let ghost full = scores_view(out@);
    out.truncate(TOP_N);
    proof {
        assert(ranked_by(full, c, from));
        assert(scores_view(out@) =~= full.take(
            if full.len() < TOP_N {
                full.len() as int
            } else {
                TOP_N as int
            },
        ));
    }
    out
}

// ---------------------------------------------------------------- weakest tags

/// The weakest tags shown: the first `TOP_N` of the tag counts, in their order.
pub fn weakest(counts: &Vec<(String, i64)>) -> (r: Vec<Weakness>)
    ensures
        weakness_view(r@) == tally_view(counts@).take(
            if counts.len() < TOP_N {
                counts.len() as int
            } else {
                TOP_N as int
            },
        ),
        r.len() <= TOP_N,
{
    let mut all = weaknesses(counts);
    let ghost full = weakness_view(all@);
    all.truncate(TOP_N);
    proof {
        assert(weakness_view(all@) =~= full.take(
            if counts.len() < TOP_N {
                counts.len() as int
            } else {
                TOP_N as int
            },
        ));
    }
    all
}

// ---------------------------------------------------------------- streaks

/// How many days in a row, ending on `d` and going back, appear in `days`;
/// counted back at most `n` days.
pub open spec fn run_to(days: Seq<i32>, d: int, n: nat) -> nat
    decreases n,
{
    if n == 0 || !days.contains(d as i32) || d < i32::MIN {
        0
    } else {
        1 + run_to(days, d - 1, (n - 1) as nat)
    }
}

/// The current streak: the days in a row with activity, ending today. A run
/// cannot be longer than the list of days, which bounds the count.
pub open spec fn streak(days: Seq<i32>, today: int) -> nat {
    run_to(days, today, days.len())
}

/// The longest streak: the longest run ending on any listed day.
pub open spec fn longest_upto(days: Seq<i32>, k: int) -> nat
    decreases k,
{
    if k <= 0 {
        0
    } else {
        let best = longest_upto(days, k - 1);
        let here = run_to(days, days[k - 1] as int, days.len());
        if here > best {
            here
        } else {
            best
        }
    }
}

fn lists_day(days: &Vec<i32>, d: i32) -> (r: bool)
    ensures
        r == days@.contains(d),
{
    let mut k: usize = 0;
    while k < days.len()
        invariant
            k <= days.len(),
            forall|m: int| 0 <= m < k ==> days@[m] != d,
        decreases days.len() - k,
    {
        if days[k] == d {
            assert(days@[k as int] == d);
            return true;
        }
        k += 1;
    }
    false
}

fn run_back(days: &Vec<i32>, d: i32) -> (r: u64)
    ensures
        r == run_to(days@, d as int, days.len() as nat),
        r <= days.len(),
{
    let n = days.len();
    let mut count: usize = 0;
    let mut cur: i64 = d as i64;
    while count < n && cur >= i32::MIN as i64 && lists_day(days, cur as i32)
        invariant
            count <= n,
            n == days.len(),
            cur == d - count,
            run_to(days@, d as int, n as nat) == count + run_to(days@, cur as int, (n - count) as nat),
        decreases n - count,
    {
        count += 1;
        cur -= 1;
    }
    count as u64
}

/// The current streak: days in a row with activity, ending today.
pub fn streak_from(days: &Vec<i32>, today: i32) -> (r: u64)
    ensures
        r == streak(days@, today as int),
{
    run_back(days, today)
}

/// The longest streak of days in a row with activity.
pub fn longest_streak_from(days: &Vec<i32>) -> (r: u64)
    ensures
        r == longest_upto(days@, days.len() as int),
{
    let mut best: u64 = 0;
    let mut k: usize = 0;
    while k < days.len()
        invariant
            k <= days.len(),
            best == longest_upto(days@, k as int),
        decreases days.len() - k,
    {
        let here = run_back(days, days[k]);
        if here > best {
            best = here;
        }
        k += 1;
    }
    best
}

} // verus!
