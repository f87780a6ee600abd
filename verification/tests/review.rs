use lacuna_server::domain::Rating;
use lacuna_server::review::{
    expected_ms, grade_item, session_rating, GOOD_RATIO_DEN, GOOD_RATIO_NUM,
};
use lacuna_server::sheet::{Blank, Item, Segment};

fn item(text: &str, answer: &str) -> Item {
    Item {
        n: 1,
        segments: vec![
            Segment::Text {
                text: text.to_string(),
            },
            Segment::Blank(Blank {
                id: "1a".to_string(),
                accept: vec![answer.to_string()],
                tags: vec![],
            }),
            Segment::Text {
                text: "Bus.".to_string(),
            },
        ],
        hint: None,
    }
}

#[test]
fn a_longer_sentence_gets_a_longer_budget() {
    let short = item("Ich fahre mit", "dem");
    let long = item(
        "Gestern Abend bin ich noch schnell zum Supermarkt gelaufen und dann mit",
        "dem",
    );
    assert!(expected_ms(&long) > expected_ms(&short));
}

#[test]
fn a_longer_answer_gets_a_longer_budget() {
    let short = item("Ich fahre mit", "dem");
    let long = item("Ich fahre mit", "demjenigen");
    assert!(expected_ms(&long) > expected_ms(&short));
}

#[test]
fn a_mistake_is_always_again_however_fast() {
    let item = item("Ich fahre mit", "dem");
    assert_eq!(grade_item(&item, 1, false), Rating::Again);
    assert_eq!(grade_item(&item, 60_000, false), Rating::Again);
}

#[test]
fn instant_and_correct_is_easy() {
    let item = item("Ich fahre mit", "dem");
    assert_eq!(grade_item(&item, 300, true), Rating::Easy);
}

#[test]
fn correct_but_slow_is_good_not_easy() {
    // This is the case from the brief: right answer, five seconds of thinking.
    let item = item("Ich fahre mit", "dem");
    let budget = expected_ms(&item);
    assert!(budget < 5_000, "a short item should not budget five seconds");
    assert_eq!(grade_item(&item, 5_000, true), Rating::Hard);
    assert_eq!(grade_item(&item, budget + 100, true), Rating::Good);
}

#[test]
fn the_boundaries_are_where_they_say_they_are() {
    let item = item("Ich fahre mit", "dem");
    let budget = expected_ms(&item);
    assert_eq!(grade_item(&item, budget, true), Rating::Easy);
    assert_eq!(grade_item(&item, budget + 1, true), Rating::Good);
    let good_ratio = GOOD_RATIO_NUM as f32 / GOOD_RATIO_DEN as f32;
    let good_edge = (budget as f32 * good_ratio) as u32;
    assert_eq!(grade_item(&item, good_edge, true), Rating::Good);
    assert_eq!(grade_item(&item, good_edge + 500, true), Rating::Hard);
}

#[test]
fn a_perfect_fast_run_is_easy() {
    assert_eq!(session_rating(&[Rating::Easy; 20]), Rating::Easy);
}

#[test]
fn one_mistake_caps_the_session_at_good() {
    let mut ratings = vec![Rating::Easy; 19];
    ratings.push(Rating::Again);
    assert_eq!(session_rating(&ratings), Rating::Good);
}

#[test]
fn a_slow_but_correct_run_is_good() {
    assert_eq!(session_rating(&[Rating::Good; 20]), Rating::Good);
}

#[test]
fn a_laboured_run_is_hard() {
    assert_eq!(session_rating(&[Rating::Hard; 20]), Rating::Hard);
}

#[test]
fn a_run_full_of_mistakes_is_again() {
    let mut ratings = vec![Rating::Again; 10];
    ratings.extend([Rating::Easy; 10]);
    assert_eq!(session_rating(&ratings), Rating::Again);
}

#[test]
fn an_empty_run_is_again() {
    assert_eq!(session_rating(&[]), Rating::Again);
}

#[test]
fn the_budget_is_read_plus_type_time() {
    // "Ich fahre mit Bus." is 18 visible characters, "dem" is 3 to type.
    let item = item("Ich fahre mit", "dem");
    assert_eq!(expected_ms(&item), 400 + 18 * 55 + 3 * 260);
}

#[test]
fn the_good_edge_is_nine_fifths_of_the_budget() {
    let item = item("Ich fahre mit", "dem");
    // A budget of 2170 ms: 3906 ms is exactly 1.8 times it.
    assert_eq!(expected_ms(&item), 2170);
    assert_eq!(grade_item(&item, 3906, true), Rating::Good);
    assert_eq!(grade_item(&item, 3907, true), Rating::Hard);
}

#[test]
fn a_run_of_goods_and_easies_averages_its_weights() {
    // Ten at 0.85 and ten at 1.0 average 0.925: Good.
    let mut ratings = vec![Rating::Good; 10];
    ratings.extend([Rating::Easy; 10]);
    assert_eq!(session_rating(&ratings), Rating::Good);
    // One Hard among nineteen Easy averages 0.98: Easy, since nothing was wrong.
    let mut ratings = vec![Rating::Easy; 19];
    ratings.push(Rating::Hard);
    assert_eq!(session_rating(&ratings), Rating::Easy);
}
