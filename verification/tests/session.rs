use chrono::{Datelike, NaiveDate};
use lacuna_server::domain::{ErrorKind, ErrorTag, Level, Rating};
use lacuna_server::grade::{grade_sheet, Verdict};
use lacuna_server::pack::{Pack, TopicDef, TopicStatus};
use lacuna_server::progress::TopicState;
use lacuna_server::session::{
    accept_answer, client_sheet, finish_run, grade_one_item, item_verdict, next_due,
    rating_to_record, today_queue, topic_views, weaknesses, AcceptError, ClientSegment, ItemAnswer,
};
use lacuna_server::sheet::{Blank, Item, Segment, Sheet};

fn day(y: i32, m: u32, d: u32) -> i32 {
    NaiveDate::from_ymd_opt(y, m, d).unwrap().num_days_from_ce()
}

fn today() -> i32 {
    day(2026, 8, 15)
}

fn text(s: &str) -> Segment {
    Segment::Text {
        text: s.to_string(),
    }
}

fn blank(id: &str, accept: &[&str]) -> Segment {
    Segment::Blank(Blank {
        id: id.to_string(),
        accept: accept.iter().map(|s| s.to_string()).collect(),
        tags: vec![ErrorTag::new(ErrorKind::Case, "dative")],
    })
}

fn tiny_sheet() -> Sheet {
    Sheet {
        topic_id: "cases.dative".to_string(),
        language: "de".to_string(),
        items: vec![
            Item {
                n: 1,
                segments: vec![text("Ich fahre mit"), blank("1a", &["dem"]), text("Bus.")],
                hint: None,
            },
            Item {
                n: 2,
                segments: vec![
                    text("Sie hilft"),
                    blank("2a", &["ihrer"]),
                    text("Mutter mit"),
                    blank("2b", &["dem"]),
                    text("Garten."),
                ],
                hint: Some("ihr, der".to_string()),
            },
        ],
    }
}

fn answers(pairs: &[(&str, &str)]) -> Vec<(String, String)> {
    pairs.iter().map(|(a, b)| (a.to_string(), b.to_string())).collect()
}

fn def(id: &str, cefr: Level, stage: u32) -> TopicDef {
    TopicDef {
        id: id.to_string(),
        cefr,
        stage,
        category: "Cases".to_string(),
        title: format!("Title of {id}"),
        goal: "Practice".to_string(),
        status: TopicStatus::Known,
    }
}

fn pack() -> Pack {
    Pack::from_defs(
        "de",
        vec![
            def("cases.dative", Level::A1, 1),
            def("cases.accusative", Level::A1, 2),
            def("verbs.modal", Level::A2, 1),
        ],
    )
    .unwrap()
}

fn state(id: &str, due: Option<i32>, reps: i64) -> TopicState {
    TopicState {
        topic_id: id.to_string(),
        due,
        last_review: None,
        reps,
        lapses: 0,
    }
}

#[test]
fn the_client_sheet_has_no_answers() {
    let pack = pack();
    let topic = pack.topic("cases.dative").unwrap();
    let client = client_sheet(7, &tiny_sheet(), topic);
    assert_eq!(client.sheet_id, 7);
    assert_eq!(client.topic_id, "cases.dative");
    assert_eq!(client.topic_title, "Title of cases.dative");
    assert_eq!(client.topic_category, "Cases");
    assert_eq!(client.cefr, Level::A1);
    assert_eq!(client.items.len(), 2);
    assert_eq!(client.items[1].hint.as_deref(), Some("ihr, der"));
    let kinds: Vec<String> = client.items[1]
        .segments
        .iter()
        .map(|s| match s {
            ClientSegment::Text { text } => format!("text:{text}"),
            ClientSegment::Blank { id } => format!("blank:{id}"),
        })
        .collect();
    assert_eq!(
        kinds,
        ["text:Sie hilft", "blank:2a", "text:Mutter mit", "blank:2b", "text:Garten."]
    );
}

#[test]
fn one_item_is_right_only_if_every_blank_is() {
    let sheet = tiny_sheet();
    let (results, correct) = grade_one_item(&sheet.items[1], &answers(&[("2a", "ihrer"), ("2b", "dem")]));
    assert!(correct);
    assert_eq!(results.len(), 2);
    let (results, correct) = grade_one_item(&sheet.items[1], &answers(&[("2a", "ihrer")]));
    assert!(!correct);
    assert_eq!(results[1].given, "");
    assert!(!results[1].verdict.is_correct());
}

#[test]
fn an_item_verdict_needs_the_item() {
    let sheet = tiny_sheet();
    assert!(item_verdict(&sheet, 9, 1000, &answers(&[])).is_none());
    let v = item_verdict(&sheet, 1, 300, &answers(&[("1a", "dem")])).unwrap();
    assert!(v.correct);
    assert_eq!(v.grade, Rating::Easy);
    let v = item_verdict(&sheet, 1, 300, &answers(&[("1a", "den")])).unwrap();
    assert!(!v.correct);
    assert_eq!(v.grade, Rating::Again);
}

#[test]
fn the_chosen_rating_wins() {
    let graded = grade_sheet(&tiny_sheet(), &answers(&[]));
    assert_eq!(graded.rating, Rating::Again);
    assert_eq!(rating_to_record(&graded, None), Rating::Again);
    assert_eq!(rating_to_record(&graded, Some(Rating::Hard)), Rating::Hard);
}

#[test]
fn also_accept_answers_with_the_new_list_and_a_correct_verdict() {
    let mut sheet = tiny_sheet();
    let response = accept_answer(&mut sheet, "1a", " diesem ").unwrap();
    assert_eq!(response.blank_id, "1a");
    assert_eq!(response.accept, ["dem", "diesem"]);
    assert_eq!(response.verdict, Verdict::Correct);
    assert_eq!(sheet.blank("1a").unwrap().accept, ["dem", "diesem"]);
}

#[test]
fn also_accept_for_a_missing_blank_changes_nothing() {
    let mut sheet = tiny_sheet();
    assert_eq!(accept_answer(&mut sheet, "9z", "dem").unwrap_err(), AcceptError::NoSuchBlank);
    assert_eq!(sheet, tiny_sheet());
}

#[test]
fn also_accept_refuses_an_answer_that_cleans_to_nothing() {
    let mut sheet = tiny_sheet();
    assert_eq!(accept_answer(&mut sheet, "1a", "...").unwrap_err(), AcceptError::EmptyAnswer);
    assert_eq!(accept_answer(&mut sheet, "1a", " ?! ").unwrap_err(), AcceptError::EmptyAnswer);
    assert_eq!(sheet, tiny_sheet());
}

#[test]
fn a_finished_run_is_regraded_from_its_answers() {
    let sheet = tiny_sheet();
    let run = vec![
        ItemAnswer {
            n: 1,
            elapsed_ms: 300,
            answers: answers(&[("1a", "dem")]),
        },
        ItemAnswer {
            n: 7,
            elapsed_ms: 99_999,
            answers: answers(&[]),
        },
        ItemAnswer {
            n: 2,
            elapsed_ms: 2_000,
            answers: answers(&[("2a", "ihre"), ("2b", "dem")]),
        },
    ];
    let outcome = finish_run(&sheet, &run);
    assert_eq!(outcome.graded.total, 3);
    assert_eq!(outcome.graded.correct, 2);
    assert_eq!(outcome.graded.rating, Rating::Hard);
    assert_eq!(outcome.elapsed_ms, 2_300, "an answer for a missing item is not counted");
    // One easy item and one mistake: 50 out of 100 is below the 60 for Hard.
    assert_eq!(outcome.rating, Rating::Again);
}

#[test]
fn a_full_run_grades_like_the_sheet() {
    let sheet = tiny_sheet();
    let given = answers(&[("1a", "dem"), ("2a", "ihrer"), ("2b", "den")]);
    let run: Vec<ItemAnswer> = sheet
        .items
        .iter()
        .map(|i| ItemAnswer {
            n: i.n,
            elapsed_ms: 100,
            answers: given.clone(),
        })
        .collect();
    let outcome = finish_run(&sheet, &run);
    let checked = grade_sheet(&sheet, &given);
    assert_eq!(outcome.graded, checked);
}

#[test]
fn an_empty_finished_run_grades_nothing() {
    let outcome = finish_run(&tiny_sheet(), &Vec::new());
    assert_eq!(outcome.graded.total, 0);
    assert_eq!(outcome.rating, Rating::Again);
    assert_eq!(outcome.elapsed_ms, 0);
}

#[test]
fn topics_are_listed_with_their_state() {
    let pack = pack();
    let states = vec![
        state("cases.dative", Some(day(2026, 8, 18)), 2),
        state("cases.accusative", Some(day(2026, 8, 1)), 5),
        state("cases.accusative", Some(day(2026, 8, 14)), 1),
    ];
    let views = topic_views(&pack, &states, &vec![true, true, false], today());
    assert_eq!(views.len(), 3);
    assert_eq!(views[0].id, "cases.dative");
    assert_eq!(views[0].due.as_deref(), Some("2026-08-18"));
    assert!(!views[0].is_due);
    assert!(!views[0].is_new);
    assert_eq!(views[1].reps, 1, "the last stored state stands");
    assert!(views[1].is_due);
    assert_eq!(views[2].due, None);
    assert!(views[2].is_due);
    assert!(views[2].is_new);
    assert_eq!(views[2].reps, 0);
    assert!(!views[2].has_sheet);
}

#[test]
fn the_queue_holds_due_topics_with_a_sheet() {
    let pack = pack();
    let states = vec![state("cases.dative", Some(day(2026, 8, 18)), 2)];
    let views = topic_views(&pack, &states, &vec![true, true, false], today());
    let queue = today_queue(views);
    let ids: Vec<&str> = queue.iter().map(|v| v.id.as_str()).collect();
    assert_eq!(ids, ["cases.accusative"]);

    let views = topic_views(&pack, &Vec::new(), &vec![true, true, true], today());
    let (next, remaining) = next_due(views);
    assert_eq!(next.unwrap().id, "cases.dative");
    assert_eq!(remaining, 2);

    let views = topic_views(&pack, &Vec::new(), &vec![false, false, false], today());
    let (next, remaining) = next_due(views);
    assert!(next.is_none());
    assert_eq!(remaining, 0);
}

#[test]
fn weaknesses_keep_the_order_of_the_counts() {
    let counts = vec![("case:dative".to_string(), 3), ("trigger:preposition_mit".to_string(), 1)];
    let list = weaknesses(&counts);
    assert_eq!(list.len(), 2);
    assert_eq!(list[0].tag, "case:dative");
    assert_eq!(list[0].count, 3);
    assert_eq!(list[1].tag, "trigger:preposition_mit");
}

#[test]
fn item_feedback_is_what_the_run_records() {
    let sheet = tiny_sheet();
    let given = answers(&[("2a", "ihrer"), ("2b", "den")]);
    let feedback = item_verdict(&sheet, 2, 4_000, &given).unwrap();
    let run = finish_run(
        &sheet,
        &vec![ItemAnswer {
            n: 2,
            elapsed_ms: 4_000,
            answers: given.clone(),
        }],
    );
    assert_eq!(run.graded.results, feedback.results);
    assert!(!feedback.correct);
    assert_eq!(feedback.grade, Rating::Again);
    assert_eq!(run.rating, Rating::Again);
    assert_eq!(run.elapsed_ms, 4_000);
}
