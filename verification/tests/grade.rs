use lacuna_server::domain::{ErrorKind, ErrorTag, Rating};
use lacuna_server::grade::{grade_blank, grade_sheet, rating_for, Verdict};
use lacuna_server::sheet::{Blank, Item, Segment, Sheet};

fn item_with(accept: &[&str], leading_blank: bool) -> (Item, Blank) {
    let blank = Blank {
        id: "1a".to_string(),
        accept: accept.iter().map(|s| s.to_string()).collect(),
        tags: vec![ErrorTag::new(ErrorKind::Case, "dative")],
    };
    let segments = if leading_blank {
        vec![
            Segment::Blank(blank.clone()),
            Segment::Text {
                text: "ist mein Haus.".to_string(),
            },
        ]
    } else {
        vec![
            Segment::Text {
                text: "Das ist".to_string(),
            },
            Segment::Blank(blank.clone()),
            Segment::Text {
                text: "Haus.".to_string(),
            },
        ]
    };
    (
        Item {
            n: 1,
            segments,
            hint: None,
        },
        blank,
    )
}

fn grade(accept: &[&str], given: &str) -> Verdict {
    let (item, blank) = item_with(accept, false);
    grade_blank(&blank, &item, given)
}

#[test]
fn exact_answer_is_correct() {
    assert_eq!(grade(&["dem"], "dem"), Verdict::Correct);
}

#[test]
fn any_accepted_answer_counts() {
    assert_eq!(grade(&["dem", "diesem"], "diesem"), Verdict::Correct);
}

#[test]
fn whitespace_and_stray_punctuation_are_forgiven() {
    assert_eq!(grade(&["dem"], "  dem "), Verdict::Correct);
    assert_eq!(grade(&["dem"], "dem."), Verdict::Correct);
    assert_eq!(grade(&["dem"], "\"dem\""), Verdict::Correct);
}

#[test]
fn an_empty_answer_is_wrong() {
    let verdict = grade(&["dem"], "   ");
    assert!(matches!(verdict, Verdict::Wrong { .. }));
}

#[test]
fn a_wrong_answer_carries_the_blanks_tags() {
    let Verdict::Wrong { expected, tags } = grade(&["dem"], "den") else {
        panic!("expected a wrong verdict");
    };
    assert_eq!(expected, "dem");
    assert_eq!(tags, vec![ErrorTag::new(ErrorKind::Case, "dative")]);
}

#[test]
fn a_lowercase_noun_is_wrong() {
    let Verdict::Wrong { expected, tags } = grade(&["Haus"], "haus") else {
        panic!("noun capitalisation must count");
    };
    assert_eq!(expected, "Haus");
    assert_eq!(tags[0].kind, ErrorKind::Capitalisation);
}

#[test]
fn a_capital_in_the_middle_of_a_sentence_is_wrong() {
    let verdict = grade(&["dem"], "Dem");
    assert!(matches!(verdict, Verdict::Wrong { .. }));
}

#[test]
fn a_capital_at_the_start_of_a_sentence_is_fine() {
    let (item, blank) = item_with(&["dieses"], true);
    assert_eq!(grade_blank(&blank, &item, "Dieses"), Verdict::Correct);
}

#[test]
fn ss_for_sharp_s_is_accepted_with_a_note() {
    let Verdict::CorrectWithNote { expected, .. } = grade(&["Straße"], "Strasse") else {
        panic!("ss should be accepted");
    };
    assert_eq!(expected, "Straße");
}

#[test]
fn ae_for_umlaut_is_accepted_with_a_note() {
    assert!(matches!(
        grade(&["für"], "fuer"),
        Verdict::CorrectWithNote { .. }
    ));
    assert!(matches!(
        grade(&["Bäcker"], "Baecker"),
        Verdict::CorrectWithNote { .. }
    ));
}

#[test]
fn shouting_the_answer_is_still_a_capitalisation_mistake() {
    let Verdict::Wrong { tags, .. } = grade(&["Straße"], "STRASSE") else {
        panic!("expected a capitalisation mistake");
    };
    assert_eq!(tags[0].kind, ErrorKind::Capitalisation);
}

#[test]
fn a_real_typo_is_still_wrong() {
    assert!(matches!(grade(&["für"], "fur"), Verdict::Wrong { .. }));
}

#[test]
fn score_boundaries() {
    // Scores as fractions: 0.0, 0.59, 0.60, 0.79, 0.80, 0.94, 0.95, 1.0.
    assert_eq!(rating_for(0, 100), Rating::Again);
    assert_eq!(rating_for(59, 100), Rating::Again);
    assert_eq!(rating_for(60, 100), Rating::Hard);
    assert_eq!(rating_for(79, 100), Rating::Hard);
    assert_eq!(rating_for(80, 100), Rating::Good);
    assert_eq!(rating_for(94, 100), Rating::Good);
    assert_eq!(rating_for(95, 100), Rating::Easy);
    assert_eq!(rating_for(100, 100), Rating::Easy);
}

#[test]
fn grading_a_sheet_counts_missing_answers_as_wrong() {
    let sheet = Sheet {
        topic_id: "cases.dative".to_string(),
        language: "de".to_string(),
        items: vec![Item {
            n: 1,
            segments: vec![
                Segment::Text {
                    text: "Ich fahre mit".to_string(),
                },
                Segment::Blank(Blank {
                    id: "1a".to_string(),
                    accept: vec!["dem".to_string()],
                    tags: vec![],
                }),
                Segment::Text {
                    text: "Bus zur".to_string(),
                },
                Segment::Blank(Blank {
                    id: "1b".to_string(),
                    accept: vec!["Arbeit".to_string()],
                    tags: vec![],
                }),
            ],
            hint: None,
        }],
    };

    let answers = vec![("1a".to_string(), "dem".to_string())];
    let graded = grade_sheet(&sheet, &answers);

    assert_eq!(graded.total, 2);
    assert_eq!(graded.correct, 1);
    assert_eq!(graded.rating, Rating::Again);
}

#[test]
fn a_sheet_with_no_blanks_rates_again() {
    assert_eq!(rating_for(0, 0), Rating::Again);
}

#[test]
fn the_note_names_the_normal_spelling() {
    let Verdict::CorrectWithNote { note, expected } = grade(&["Straße"], "Strasse.") else {
        panic!("ss should be accepted");
    };
    assert_eq!(note, "`Straße` is the normal spelling");
    assert_eq!(expected, "Straße");
}

#[test]
fn a_wrong_answer_shows_the_first_accepted_one() {
    let Verdict::Wrong { expected, .. } = grade(&["dem", "diesem"], "das") else {
        panic!("expected a wrong verdict");
    };
    assert_eq!(expected, "dem");
}

#[test]
fn inner_whitespace_is_collapsed() {
    assert_eq!(grade(&["zu dem"], " zu   dem "), Verdict::Correct);
    assert!(matches!(grade(&["zu dem"], "zudem"), Verdict::Wrong { .. }));
}

#[test]
fn hyphens_and_apostrophes_are_kept() {
    assert!(matches!(grade(&["geht's"], "geht"), Verdict::Wrong { .. }));
    assert!(matches!(grade(&["E-Mail"], "E-Mail-"), Verdict::Wrong { .. }));
    assert_eq!(grade(&["E-Mail"], "(E-Mail)"), Verdict::Correct);
}

#[test]
fn a_capitalised_long_spelling_at_the_start_gets_a_note() {
    let (item, blank) = item_with(&["über"], true);
    assert!(matches!(
        grade_blank(&blank, &item, "Ueber"),
        Verdict::CorrectWithNote { .. }
    ));
}

#[test]
fn a_verdict_is_correct_unless_it_is_wrong() {
    assert!(Verdict::Correct.is_correct());
    assert!(grade(&["für"], "fuer").is_correct());
    assert!(!grade(&["für"], "fur").is_correct());
}

#[test]
fn missing_answers_are_recorded_as_empty() {
    let (item, _) = item_with(&["dem"], false);
    let sheet = Sheet {
        topic_id: "cases.dative".to_string(),
        language: "de".to_string(),
        items: vec![item],
    };
    let graded = grade_sheet(&sheet, &vec![("2a".to_string(), "dem".to_string())]);
    assert_eq!(graded.results.len(), 1);
    assert_eq!(graded.results[0].blank_id, "1a");
    assert_eq!(graded.results[0].given, "");
    assert!(!graded.results[0].verdict.is_correct());
}

fn facts(lower: &str, first_upper: bool, first_lower: bool) -> lacuna_server::grade::CaseFacts {
    lacuna_server::grade::CaseFacts {
        lower: lower.chars().collect(),
        first_upper,
        first_lower,
    }
}

#[test]
fn grading_goes_by_the_case_facts_it_is_given() {
    let (_, blank) = item_with(&["Straße"], false);
    let accept = vec![facts("straße", true, false)];
    let accept_long = vec![facts("strasse", true, false)];
    let given = facts("strasse", true, false);
    let verdict = lacuna_server::grade::grade_with_cases(&blank, false, "Strasse", &given, &given, &accept, &accept_long);
    assert!(matches!(verdict, Verdict::CorrectWithNote { ref expected, .. } if expected == "Straße"));
    // Told that the long spellings differ, the same answer is simply wrong.
    let other_long = vec![facts("strase", true, false)];
    let verdict = lacuna_server::grade::grade_with_cases(&blank, false, "Strasse", &given, &given, &accept, &other_long);
    assert!(matches!(verdict, Verdict::Wrong { ref expected, .. } if expected == "Straße"));
    // Told that the lower case forms agree, it is a capitalisation mistake.
    let verdict = lacuna_server::grade::grade_with_cases(
        &blank,
        false,
        "STRAßE",
        &facts("straße", true, false),
        &facts("strasse", true, false),
        &accept,
        &accept_long,
    );
    assert!(matches!(verdict, Verdict::Wrong { ref tags, .. } if tags == &vec![ErrorTag::new(ErrorKind::Capitalisation, "letter_case")]));
}

#[test]
fn grading_with_the_true_case_facts_agrees_with_grading() {
    let (item, blank) = item_with(&["Bäcker"], false);
    for given in ["Bäcker", "Baecker", "bäcker", "BAECKER", "Becker", ""] {
        let g = lacuna_server::grade::clean_chars(&given.chars().collect::<Vec<char>>());
        let gf = lacuna_server::grade::case_facts_of(&g);
        let gtf = lacuna_server::grade::case_facts_of(&lacuna_server::grade::translit_chars(&g));
        let a: Vec<char> = "Bäcker".chars().collect();
        let af = vec![lacuna_server::grade::case_facts_of(&a)];
        let atf = vec![lacuna_server::grade::case_facts_of(&lacuna_server::grade::translit_chars(&a))];
        assert_eq!(
            lacuna_server::grade::grade_with_cases(&blank, false, given, &gf, &gtf, &af, &atf),
            grade_blank(&blank, &item, given)
        );
    }
}
