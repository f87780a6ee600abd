use lacuna_server::domain::{ErrorKind, ErrorTag, Level, Rating};

#[test]
fn levels_round_trip() {
    for level in Level::ALL {
        assert_eq!(level.as_str().parse::<Level>().unwrap(), level);
    }
}

#[test]
fn ratings_map_to_fsrs_buttons() {
    assert_eq!(Rating::Again.as_fsrs(), 1);
    assert_eq!(Rating::Hard.as_fsrs(), 2);
    assert_eq!(Rating::Good.as_fsrs(), 3);
    assert_eq!(Rating::Easy.as_fsrs(), 4);
}

#[test]
fn tags_round_trip() {
    let tag: ErrorTag = "trigger:preposition_mit".parse().unwrap();
    assert_eq!(tag.kind, ErrorKind::Trigger);
    assert_eq!(tag.detail, "preposition_mit");
    assert_eq!(tag.to_string(), "trigger:preposition_mit");
}

#[test]
fn bad_tags_are_rejected() {
    assert!("dative".parse::<ErrorTag>().is_err());
    assert!("mood:dative".parse::<ErrorTag>().is_err());
    assert!("case:".parse::<ErrorTag>().is_err());
    assert!("case:Dativ".parse::<ErrorTag>().is_err());
}

#[test]
fn levels_read_in_any_ascii_case() {
    assert_eq!("b2".parse::<Level>().unwrap(), Level::B2);
    assert_eq!(Level::parse("c1"), Ok(Level::C1));
}

#[test]
fn an_unknown_level_is_quoted_in_upper_case() {
    assert_eq!(Level::parse("d4"), Err("unknown CEFR level `D4`".to_string()));
}

#[test]
fn ratings_read_in_any_ascii_case_and_round_trip() {
    for r in [Rating::Again, Rating::Hard, Rating::Good, Rating::Easy] {
        assert_eq!(r.as_str().parse::<Rating>().unwrap(), r);
    }
    assert_eq!(Rating::parse("GOOD"), Ok(Rating::Good));
    assert_eq!(Rating::parse("Meh"), Err("unknown rating `meh`".to_string()));
}

#[test]
fn error_kinds_need_their_exact_name() {
    assert_eq!(ErrorKind::parse("word_order"), Ok(ErrorKind::WordOrder));
    assert_eq!(ErrorKind::WordOrder.as_str(), "word_order");
    assert_eq!(ErrorKind::parse("Case"), Err("unknown error kind `Case`".to_string()));
}

#[test]
fn tag_errors_say_what_is_wrong() {
    assert_eq!(
        ErrorTag::parse("dative"),
        Err("tag `dative` is not in `kind:detail` form".to_string())
    );
    assert_eq!(
        ErrorTag::parse("mood:dative"),
        Err("unknown error kind `mood`".to_string())
    );
    assert_eq!(
        ErrorTag::parse("case:"),
        Err("tag `case:` has an empty detail".to_string())
    );
    assert_eq!(
        ErrorTag::parse("case:Dativ"),
        Err("tag detail `Dativ` must be lowercase ascii, digits or underscore".to_string())
    );
}

#[test]
fn a_tag_splits_at_its_first_colon() {
    assert!(ErrorTag::parse("case:da:tive").is_err());
    let tag = ErrorTag::parse("form:past_2").unwrap();
    assert_eq!(tag, ErrorTag::new(ErrorKind::Form, "past_2"));
}
