use lacuna_server::sheet::{Blank, Item, Segment, Sheet, SheetError, ITEMS_PER_SHEET};

fn text(s: &str) -> Segment {
    Segment::Text {
        text: s.to_string(),
    }
}

fn blank(id: &str, accept: &[&str]) -> Segment {
    Segment::Blank(Blank {
        id: id.to_string(),
        accept: accept.iter().map(|s| s.to_string()).collect(),
        tags: vec![],
    })
}

fn item(n: u32) -> Item {
    Item {
        n,
        segments: vec![
            text("Gestern"),
            blank(&format!("{n}a"), &["kam"]),
            text("ich spät nach Hause."),
        ],
        hint: Some("kommen".to_string()),
    }
}

fn sheet() -> Sheet {
    Sheet {
        topic_id: "verbs_past.praeteritum_sein".to_string(),
        language: "de".to_string(),
        items: (1..=ITEMS_PER_SHEET as u32).map(item).collect(),
    }
}

#[test]
fn a_good_sheet_validates() {
    sheet().validate().unwrap();
}

#[test]
fn item_count_is_exact() {
    let mut s = sheet();
    s.items.pop();
    assert_eq!(s.validate(), Err(SheetError::WrongItemCount(19)));
}

#[test]
fn every_item_needs_a_blank() {
    let mut s = sheet();
    s.items[4].segments = vec![text("Kein Platz zum Schreiben.")];
    assert_eq!(s.validate(), Err(SheetError::ItemWithoutBlank { item: 5 }));
}

#[test]
fn every_blank_needs_an_answer() {
    let mut s = sheet();
    s.items[2].segments[1] = blank("3a", &[]);
    assert_eq!(
        s.validate(),
        Err(SheetError::EmptyAcceptList {
            blank: "3a".to_string()
        })
    );
}

#[test]
fn the_answer_must_not_sit_in_the_sentence() {
    let mut s = sheet();
    s.items[0].segments = vec![
        text("Gestern kam ich, und"),
        blank("1a", &["kam"]),
        text("ich wieder."),
    ];
    assert_eq!(
        s.validate(),
        Err(SheetError::LeakedAnswer {
            item: 1,
            answer: "kam".to_string()
        })
    );
}

#[test]
fn a_longer_word_containing_the_answer_is_not_a_leak() {
    let mut s = sheet();
    s.items[0].segments = vec![
        text("Wir mussten warten, also"),
        blank("1a", &["war"]),
        text("ich müde."),
    ];
    s.validate().unwrap();
}

#[test]
fn blank_ids_are_unique_across_the_sheet() {
    let mut s = sheet();
    s.items[1].segments[1] = blank("1a", &["war"]);
    assert_eq!(
        s.validate(),
        Err(SheetError::DuplicateBlankId {
            blank: "1a".to_string()
        })
    );
}

#[test]
fn item_numbers_must_be_in_order() {
    let mut s = sheet();
    s.items[3].n = 9;
    assert_eq!(
        s.validate(),
        Err(SheetError::BadItemNumber {
            found: 9,
            expected: 4
        })
    );
}

#[test]
fn sentence_initial_is_only_the_leading_blank() {
    let item = Item {
        n: 1,
        segments: vec![
            text("  "),
            blank("1a", &["Gestern"]),
            text("kam ich und"),
            blank("1b", &["war"]),
            text("müde."),
        ],
        hint: None,
    };
    assert!(item.is_sentence_initial("1a"));
    assert!(!item.is_sentence_initial("1b"));
}

#[test]
fn also_accept_extends_the_list_once() {
    let mut s = sheet();
    assert!(s.accept_also("1a", "ankam"));
    assert!(!s.accept_also("1a", "ankam"));
    assert_eq!(s.blank("1a").unwrap().accept, ["kam", "ankam"]);
    assert!(!s.accept_also("nope", "x"));
}

#[test]
fn an_item_of_whitespace_has_no_text() {
    let mut s = sheet();
    s.items[6].segments = vec![text("  "), blank("7a", &["kam"]), text("\t")];
    assert_eq!(s.validate(), Err(SheetError::ItemWithoutText { item: 7 }));
}

#[test]
fn a_blank_answer_is_refused() {
    let mut s = sheet();
    s.items[5].segments[1] = blank("6a", &["kam", "  "]);
    assert_eq!(
        s.validate(),
        Err(SheetError::EmptyAnswer {
            blank: "6a".to_string()
        })
    );
}

#[test]
fn a_leak_is_found_whatever_its_case() {
    let mut s = sheet();
    s.items[0].segments = vec![text("Kam ich?"), blank("1a", &["kam"]), text("Ja.")];
    assert_eq!(
        s.validate(),
        Err(SheetError::LeakedAnswer {
            item: 1,
            answer: "kam".to_string()
        })
    );
}

#[test]
fn also_accept_trims_and_refuses_an_empty_answer() {
    let mut s = sheet();
    assert!(!s.accept_also("1a", "   "));
    assert!(s.accept_also("1a", "  ankam "));
    assert_eq!(s.blank("1a").unwrap().accept, ["kam", "ankam"]);
    assert!(!s.accept_also("1a", "kam"));
}

#[test]
fn blanks_and_items_are_found_by_id() {
    let s = sheet();
    assert_eq!(s.item_of("7a").unwrap().n, 7);
    assert!(s.item_of("7b").is_none());
    assert_eq!(s.blank("12a").unwrap().canonical(), "kam");
    assert!(s.blank("x").is_none());
}

#[test]
fn a_blank_with_no_answers_has_an_empty_canonical_form() {
    let b = Blank {
        id: "1a".to_string(),
        accept: vec![],
        tags: vec![],
    };
    assert_eq!(b.canonical(), "");
}

#[test]
fn the_visible_text_joins_the_pieces_with_spaces() {
    let it = item(1);
    let visible: String = it.visible_text().into_iter().collect();
    assert_eq!(visible, "Gestern ich spät nach Hause.");
    assert_eq!(it.blanks().len(), 1);
}

#[test]
fn refusals_read_like_the_rule_they_break() {
    assert_eq!(
        SheetError::WrongItemCount(19).to_string(),
        "sheet must hold exactly 20 items, found 19"
    );
    assert_eq!(
        SheetError::LeakedAnswer {
            item: 1,
            answer: "kam".to_string()
        }
        .to_string(),
        "item 1 leaks the answer `kam` in its visible text"
    );
    assert_eq!(
        SheetError::BadItemNumber { found: 3, expected: 2 }.to_string(),
        "item numbers must run 1..20, found 3 where 2 was expected"
    );
    assert_eq!(
        SheetError::DuplicateBlankId {
            blank: "1a".to_string()
        }
        .to_string(),
        "duplicate blank id `1a`"
    );
}

#[test]
fn a_blank_can_be_changed_in_place() {
    let mut it = Item {
        n: 1,
        segments: vec![text("Ich fahre mit"), blank("1a", &["dem"]), text("zur"), blank("1b", &["Arbeit"])],
        hint: None,
    };
    {
        let b = it.blanks_mut(1).unwrap();
        assert_eq!(b.id, "1b");
        b.accept.push("Schule".to_string());
    }
    assert!(it.blanks_mut(2).is_none());
    match &it.segments[3] {
        Segment::Blank(b) => assert_eq!(b.accept, ["Arbeit", "Schule"]),
        Segment::Text { .. } => panic!("the blank moved"),
    }
    match &it.segments[1] {
        Segment::Blank(b) => assert_eq!(b.accept, ["dem"]),
        Segment::Text { .. } => panic!("the blank moved"),
    }
}

#[test]
fn a_leak_is_judged_by_the_word_ends_given() {
    let text: Vec<char> = "wir mussten warten, also war ich müde.".chars().collect();
    let answer: Vec<char> = "war".chars().collect();
    let marks: Vec<bool> = text.iter().map(|c| !c.is_alphanumeric() && *c != '\'' && *c != '-').collect();
    assert!(lacuna_server::sheet::leaks_with(&text, &answer, &marks));
    assert!(lacuna_server::sheet::leaks_in(&text, &answer));
    let none = vec![false; text.len()];
    assert!(!lacuna_server::sheet::leaks_with(&text, &answer, &none));
    let warten: Vec<char> = "wir mussten warten".chars().collect();
    let warten_marks: Vec<bool> = warten.iter().map(|c| *c == ' ').collect();
    assert!(!lacuna_server::sheet::leaks_with(&warten, &answer, &warten_marks));
}
