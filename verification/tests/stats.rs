use chrono::{Datelike, NaiveDate, Weekday};
use lacuna_server::domain::Level;
use lacuna_server::pack::{Pack, TopicDef, TopicStatus};
use lacuna_server::progress::TopicState;
use lacuna_server::stats::{
    activity, forecast, hardest, level_progress, totals, year, DayActivity, TopicRecord,
    ACTIVITY_DAYS, FORECAST_DAYS, TOP_N,
};

fn day(y: i32, m: u32, d: u32) -> i32 {
    NaiveDate::from_ymd_opt(y, m, d).unwrap().num_days_from_ce()
}

fn today() -> i32 {
    day(2026, 8, 15)
}

fn def(id: &str, cefr: Level, stage: u32) -> TopicDef {
    TopicDef {
        id: id.to_string(),
        cefr,
        stage,
        category: "Cases".to_string(),
        title: format!("Title of {id}"),
        goal: "Practice".to_string(),
        status: TopicStatus::Known,
    }
}

fn pack() -> Pack {
    Pack::from_defs(
        "de",
        vec![
            def("cases.dative", Level::A1, 1),
            def("cases.accusative", Level::A1, 2),
            def("verbs.modal", Level::B1, 1),
        ],
    )
    .unwrap()
}

fn state(id: &str, due: Option<i32>, lapses: i64) -> TopicState {
    TopicState {
        topic_id: id.to_string(),
        due,
        last_review: None,
        reps: 1,
        lapses,
    }
}

fn activity_on(d: i32, reviews: i64, correct: i64, total: i64) -> DayActivity {
    DayActivity {
        day: d,
        reviews,
        correct,
        total,
        elapsed_ms: 1000 * reviews,
    }
}

fn record(id: &str, reviews: i64, correct: i64, total: i64) -> TopicRecord {
    TopicRecord {
        topic_id: id.to_string(),
        reviews,
        correct,
        total,
    }
}

#[test]
fn levels_without_topics_are_left_out() {
    let states = vec![
        state("cases.dative", Some(day(2026, 8, 20)), 0),
        state("cases.accusative", Some(day(2026, 8, 1)), 0),
        state("verbs.modal", None, 0),
    ];
    let studied = vec!["cases.dative".to_string(), "cases.accusative".to_string()];
    let rows = level_progress(&pack(), &states, &studied, today());
    assert_eq!(rows.len(), 2);
    assert_eq!((rows[0].level, rows[0].total, rows[0].studied, rows[0].due), (Level::A1, 2, 2, 1));
    assert_eq!((rows[1].level, rows[1].total, rows[1].studied, rows[1].due), (Level::B1, 1, 0, 1));
}

#[test]
fn activity_has_a_point_for_every_day() {
    let daily = vec![
        activity_on(today(), 2, 30, 40),
        activity_on(day(2026, 8, 10), 1, 0, 0),
        activity_on(day(2026, 6, 1), 5, 5, 5),
    ];
    let points = activity(&daily, today());
    assert_eq!(points.len(), ACTIVITY_DAYS as usize);
    assert_eq!(points[0].day, today() - 29);
    assert_eq!(points[29].day, today());
    assert_eq!(points[29].count, 2);
    assert_eq!(points[29].share, Some((30, 40)));
    assert_eq!(points[24].day, day(2026, 8, 10));
    assert_eq!(points[24].count, 1);
    assert_eq!(points[24].share, None, "no blanks answered means no share");
    assert_eq!(points[0].count, 0);
}

#[test]
fn the_later_entry_for_a_day_stands() {
    let daily = vec![activity_on(today(), 2, 1, 2), activity_on(today(), 4, 3, 4)];
    let points = activity(&daily, today());
    assert_eq!(points[29].count, 4);
    assert_eq!(points[29].share, Some((3, 4)));
}

#[test]
fn the_year_starts_on_a_monday() {
    let daily = vec![activity_on(today(), 1, 1, 1), activity_on(day(2026, 1, 5), 1, 1, 1)];
    let (grid, studied) = year(&daily, today());
    let first = NaiveDate::from_num_days_from_ce_opt(grid[0].day).unwrap();
    assert_eq!(first.weekday(), Weekday::Mon);
    assert!(grid[0].day <= today() - 364);
    assert!(grid[0].day > today() - 364 - 7);
    assert_eq!(grid.last().unwrap().day, today());
    assert_eq!(grid.len() as i32, today() - grid[0].day + 1);
    assert_eq!(studied, 2);
}

#[test]
fn the_forecast_puts_everything_waiting_on_today() {
    let rows = vec![
        (day(2026, 8, 10), 2),
        (today(), 1),
        (day(2026, 8, 17), 4),
        (day(2026, 9, 30), 9),
    ];
    let states = vec![
        state("a", None, 0),
        state("b", None, 0),
        state("c", Some(day(2026, 8, 17)), 0),
    ];
    let points = forecast(&rows, &states, today());
    assert_eq!(points.len(), FORECAST_DAYS as usize);
    assert_eq!(points[0].day, today());
    assert_eq!(points[0].count, 2 + 1 + 2);
    assert_eq!(points[1].count, 0);
    assert_eq!(points[2].count, 4);
    assert!(points.iter().all(|p| p.share.is_none()));
}

#[test]
fn totals_add_up_every_day() {
    let daily = vec![activity_on(day(2026, 8, 1), 2, 30, 40), activity_on(today(), 1, 9, 10)];
    let records = vec![record("cases.dative", 3, 39, 50)];
    let states = vec![state("cases.dative", Some(day(2026, 8, 20)), 0), state("verbs.modal", None, 0)];
    let t = totals(&pack(), &records, &states, &daily, today());
    assert_eq!(t.topics_total, 3);
    assert_eq!(t.topics_studied, 1);
    assert_eq!(t.topics_due, 1);
    assert_eq!(t.reviews_total, 3);
    assert_eq!(t.blanks_total, 50);
    assert_eq!(t.blanks_correct, 39);
    assert_eq!(t.today_reviews, 1);
    assert_eq!(t.today_blanks, 10);
    assert_eq!(t.today_ms, 1000);
}

#[test]
fn the_hardest_topics_come_first() {
    let records = vec![
        record("cases.dative", 2, 9, 10),
        record("cases.accusative", 1, 1, 2),
        record("not.in.pack", 9, 0, 10),
        record("verbs.modal", 4, 2, 4),
    ];
    let states = vec![state("cases.accusative", None, 3)];
    let list = hardest(&records, &pack(), &states);
    let ids: Vec<&str> = list.iter().map(|s| s.id.as_str()).collect();
    // Half right twice: the topic with more reviews is harder.
    assert_eq!(ids, ["verbs.modal", "cases.accusative", "cases.dative"]);
    assert_eq!(list[1].lapses, 3);
    assert_eq!(list[0].lapses, 0);
    assert_eq!(list[1].title, "Title of cases.accusative");
}

#[test]
fn equally_hard_topics_keep_their_order_and_only_the_top_ones_show() {
    let mut defs = Vec::new();
    for k in 1..=10u32 {
        defs.push(def(&format!("cases.t{k}"), Level::A1, k));
    }
    let pack = Pack::from_defs("de", defs).unwrap();
    let records: Vec<TopicRecord> = (1..=10).map(|k| record(&format!("cases.t{k}"), 1, 1, 2)).collect();
    let list = hardest(&records, &pack, &Vec::new());
    assert_eq!(list.len(), TOP_N);
    let ids: Vec<String> = list.iter().map(|s| s.id.clone()).collect();
    let want: Vec<String> = (1..=8).map(|k| format!("cases.t{k}")).collect();
    assert_eq!(ids, want);
}

#[test]
fn nothing_answered_counts_as_nothing_right() {
    let records = vec![record("cases.dative", 1, 0, 0), record("cases.accusative", 1, 1, 3)];
    let list = hardest(&records, &pack(), &Vec::new());
    assert_eq!(list[0].id, "cases.dative");
}

#[test]
fn only_the_weakest_few_tags_show() {
    let counts: Vec<(String, i64)> = (0..12).map(|k| (format!("case:t{k}"), 20 - k)).collect();
    let shown = lacuna_server::stats::weakest(&counts);
    assert_eq!(shown.len(), TOP_N);
    assert_eq!(shown[0].tag, "case:t0");
    assert_eq!(shown[7].tag, "case:t7");
    assert_eq!(shown[7].count, 13);
    let few = vec![("case:dative".to_string(), 2)];
    assert_eq!(lacuna_server::stats::weakest(&few).len(), 1);
}
