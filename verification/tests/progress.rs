use chrono::{Datelike, NaiveDate, Weekday};
use lacuna_server::calendar::monday;
use lacuna_server::domain::{ErrorKind, ErrorTag, Rating};
use lacuna_server::grade::Verdict;
use lacuna_server::progress::{answer_fields, tag_counts, TopicState};

fn day(y: i32, m: u32, d: u32) -> i32 {
    NaiveDate::from_ymd_opt(y, m, d).unwrap().num_days_from_ce()
}

fn today() -> i32 {
    day(2026, 8, 15)
}

fn fresh(id: &str) -> TopicState {
    TopicState {
        topic_id: id.to_string(),
        due: None,
        last_review: None,
        reps: 0,
        lapses: 0,
    }
}

#[test]
fn days_since_review_counts_from_the_last_one() {
    let state = TopicState {
        topic_id: "x".to_string(),
        due: None,
        last_review: Some(day(2026, 8, 10)),
        reps: 1,
        lapses: 0,
    };
    assert_eq!(state.days_since_review(today()), 5);
}

#[test]
fn a_review_in_the_future_counts_as_no_days() {
    let mut state = fresh("x");
    state.last_review = Some(day(2026, 8, 20));
    assert_eq!(state.days_since_review(today()), 0);
    assert_eq!(fresh("x").days_since_review(today()), 0);
}

#[test]
fn a_topic_never_studied_is_due() {
    assert!(fresh("x").is_due(today()));
}

#[test]
fn a_topic_is_due_on_its_day_and_after() {
    let mut state = fresh("x");
    state.due = Some(day(2026, 8, 15));
    assert!(state.is_due(today()));
    state.due = Some(day(2026, 8, 14));
    assert!(state.is_due(today()));
    state.due = Some(day(2026, 8, 18));
    assert!(!state.is_due(today()));
}

#[test]
fn a_failed_review_moves_the_schedule_and_counts_a_lapse() {
    let due = day(2026, 8, 18);
    let state = fresh("cases.dative").after_review(Rating::Again, due, today());
    assert_eq!(state.topic_id, "cases.dative");
    assert_eq!(state.due, Some(due));
    assert_eq!(state.last_review, Some(today()));
    assert_eq!(state.reps, 1);
    assert_eq!(state.lapses, 1, "a failed sheet is a lapse");
    assert!(!state.is_due(today()));
}

#[test]
fn a_passed_review_is_no_lapse() {
    let state = fresh("x").after_review(Rating::Good, today() + 3, today());
    let state = state.after_review(Rating::Easy, today() + 9, today() + 3);
    assert_eq!(state.reps, 2);
    assert_eq!(state.lapses, 0);
    assert_eq!(state.last_review, Some(today() + 3));
}

#[test]
fn stored_columns_are_read_back() {
    let state = TopicState::from_columns(
        "cases.dative".to_string(),
        Some("2026-08-18".to_string()),
        Some("2026-08-15".to_string()),
        3,
        1,
    )
    .unwrap();
    assert_eq!(state.due, Some(day(2026, 8, 18)));
    assert_eq!(state.last_review, Some(today()));
    assert_eq!(state.reps, 3);
    assert_eq!(state.lapses, 1);
    let unstudied = TopicState::from_columns("x".to_string(), None, None, 0, 0).unwrap();
    assert_eq!(unstudied, fresh("x"));
}

#[test]
fn a_stored_date_that_is_not_a_date_is_refused() {
    assert!(TopicState::from_columns("x".to_string(), Some("soon".to_string()), None, 0, 0).is_none());
    assert!(TopicState::from_columns("x".to_string(), None, Some("2026-13-01".to_string()), 0, 0).is_none());
}

#[test]
fn day_one_is_a_monday() {
    let first = NaiveDate::from_num_days_from_ce_opt(1).unwrap();
    assert_eq!(first.weekday(), Weekday::Mon);
    for d in -20..400 {
        let date = NaiveDate::from_num_days_from_ce_opt(today() + d).unwrap();
        assert_eq!(monday(today() + d), date.weekday() == Weekday::Mon, "day {}", date);
    }
    assert!(monday(day(2026, 8, 17)));
    assert!(!monday(today()));
}

#[test]
fn a_correct_answer_logs_nothing_more() {
    assert_eq!(answer_fields(&Verdict::Correct), (String::new(), String::new()));
    let noted = Verdict::CorrectWithNote {
        note: "spelling".to_string(),
        expected: "Straße".to_string(),
    };
    assert_eq!(answer_fields(&noted), ("Straße".to_string(), String::new()));
}

#[test]
fn a_wrong_answer_logs_its_tags_space_separated() {
    let wrong = Verdict::Wrong {
        expected: "dem".to_string(),
        tags: vec![
            ErrorTag::new(ErrorKind::Case, "dative"),
            ErrorTag::new(ErrorKind::Trigger, "preposition_mit"),
        ],
    };
    assert_eq!(
        answer_fields(&wrong),
        ("dem".to_string(), "case:dative trigger:preposition_mit".to_string())
    );
    let untagged = Verdict::Wrong {
        expected: "dem".to_string(),
        tags: vec![],
    };
    assert_eq!(answer_fields(&untagged), ("dem".to_string(), String::new()));
}

#[test]
fn tags_are_counted_worst_first() {
    let rows = vec![
        "case:dative".to_string(),
        "case:dative  trigger:preposition_mit".to_string(),
        " article:der_group\tcase:dative ".to_string(),
        "trigger:preposition_mit".to_string(),
        "".to_string(),
    ];
    assert_eq!(
        tag_counts(&rows),
        vec![
            ("case:dative".to_string(), 3),
            ("trigger:preposition_mit".to_string(), 2),
            ("article:der_group".to_string(), 1),
        ]
    );
}

#[test]
fn equal_counts_are_in_string_order() {
    let rows = vec!["b:x a:y".to_string(), "a:x".to_string(), "a:y b:x a:x".to_string()];
    assert_eq!(
        tag_counts(&rows),
        vec![
            ("a:x".to_string(), 2),
            ("a:y".to_string(), 2),
            ("b:x".to_string(), 2),
        ]
    );
    assert!(tag_counts(&Vec::new()).is_empty());
}

#[test]
fn one_failed_answer_is_one_weakness() {
    let rows = vec!["case:dative".to_string()];
    assert_eq!(tag_counts(&rows), vec![("case:dative".to_string(), 1)]);
}

#[test]
fn logged_tags_are_counted_back_one_by_one() {
    let wrong = Verdict::Wrong {
        expected: "dem".to_string(),
        tags: vec![
            ErrorTag::new(ErrorKind::Case, "dative"),
            ErrorTag::new(ErrorKind::WordOrder, "verb_second"),
        ],
    };
    let (_, tags) = answer_fields(&wrong);
    assert_eq!(
        tag_counts(&vec![tags.clone(), tags]),
        vec![
            ("case:dative".to_string(), 2),
            ("word_order:verb_second".to_string(), 2),
        ]
    );
}
