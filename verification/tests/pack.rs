use lacuna_server::domain::Level;
use lacuna_server::pack::{Pack, TopicDef, TopicStatus};

fn def(id: &str, cefr: Level, stage: u32) -> TopicDef {
    TopicDef {
        id: id.to_string(),
        cefr,
        stage,
        category: "Cases".to_string(),
        title: "Dative case".to_string(),
        goal: "Practice when to use the dative".to_string(),
        status: TopicStatus::Known,
    }
}

#[test]
fn sorts_by_level_then_stage() {
    let pack = Pack::from_defs(
        "de",
        vec![
            def("cases.b", Level::A2, 2),
            def("cases.a", Level::A2, 1),
            def("articles.a", Level::A1, 1),
        ],
    )
    .unwrap();
    let ids: Vec<&str> = pack.topics.iter().map(|t| t.id.as_str()).collect();
    assert_eq!(ids, ["articles.a", "cases.a", "cases.b"]);
}

#[test]
fn rejects_duplicate_ids() {
    let err = Pack::from_defs("de", vec![def("cases.a", Level::A1, 1), def("cases.a", Level::A1, 2)])
        .unwrap_err();
    assert!(err.to_string().contains("duplicate topic id"));
}

#[test]
fn rejects_duplicate_stage_in_one_level() {
    let err = Pack::from_defs("de", vec![def("cases.a", Level::A1, 1), def("cases.b", Level::A1, 1)])
        .unwrap_err();
    assert!(err.to_string().contains("share stage"));
}

#[test]
fn rejects_gap_in_stages() {
    let err = Pack::from_defs("de", vec![def("cases.a", Level::A1, 1), def("cases.b", Level::A1, 3)])
        .unwrap_err();
    assert!(err.to_string().contains("stages must run"));
}

#[test]
fn same_stage_in_different_levels_is_fine() {
    let pack = Pack::from_defs("de", vec![def("cases.a", Level::A1, 1), def("cases.b", Level::A2, 1)]);
    assert!(pack.is_ok());
}

#[test]
fn rejects_bad_ids() {
    for bad in ["dative", "cases.dative.extra", "Cases.dative", "cases."] {
        let err = Pack::from_defs("de", vec![def(bad, Level::A1, 1)]).unwrap_err();
        assert!(err.to_string().contains("topic id"), "accepted `{bad}`");
    }
}

#[test]
fn rejects_empty_pack() {
    assert!(Pack::from_defs("de", vec![]).is_err());
}

#[test]
fn pack_errors_read_in_full() {
    let err = Pack::from_defs("de", vec![def("cases.a", Level::A1, 1), def("cases.b", Level::A1, 3)])
        .unwrap_err();
    assert_eq!(
        err.to_string(),
        "pack `de` is invalid: A1 stages must run 1..2, found 3 where 2 was expected"
    );
    let err = Pack::from_defs("de", vec![]).unwrap_err();
    assert_eq!(err.to_string(), "pack `de` is invalid: pack contains no topics");
    let err = Pack::from_defs("de", vec![def("cases.a", Level::B1, 1), def("cases.b", Level::B1, 1)])
        .unwrap_err();
    assert_eq!(
        err.to_string(),
        "pack `de` is invalid: two topics share stage 1 in B1"
    );
}

#[test]
fn the_first_missing_stage_is_reported() {
    let err = Pack::from_defs(
        "de",
        vec![
            def("a.a", Level::C1, 5),
            def("a.b", Level::C1, 1),
            def("a.c", Level::C1, 4),
            def("a.d", Level::C1, 7),
        ],
    )
    .unwrap_err();
    assert_eq!(
        err.to_string(),
        "pack `de` is invalid: C1 stages must run 1..4, found 4 where 2 was expected"
    );
}

#[test]
fn stage_zero_and_empty_fields_are_refused() {
    let err = Pack::from_defs("de", vec![def("cases.a", Level::A1, 0)]).unwrap_err();
    assert!(err.to_string().contains("has stage 0"));
    let mut d = def("cases.a", Level::A1, 1);
    d.title = "  ".to_string();
    let err = Pack::from_defs("de", vec![d]).unwrap_err();
    assert!(err.to_string().ends_with("topic `cases.a` has an empty title"));
}

#[test]
fn each_bad_id_gets_its_own_message() {
    let msg = |id: &str| Pack::from_defs("de", vec![def(id, Level::A1, 1)]).unwrap_err().to_string();
    assert!(msg("dative").ends_with("topic id `dative` must look like `category.topic`"));
    assert!(msg(".dative").ends_with("topic id `.dative` has an empty half"));
    assert!(msg("cases.dative.extra").ends_with("has more than one dot"));
    assert!(msg("Cases.dative").ends_with("must be lowercase ascii, digits, underscore or dot"));
}

#[test]
fn topics_are_found_by_id() {
    let pack = Pack::from_defs("de", vec![def("cases.a", Level::A1, 1), def("cases.b", Level::A2, 1)])
        .unwrap();
    assert_eq!(pack.topic("cases.b").unwrap().cefr, Level::A2);
    assert!(pack.topic("cases.c").is_none());
    assert_eq!(pack.language, "de");
}

#[test]
fn the_default_status_is_known() {
    assert_eq!(TopicStatus::default(), TopicStatus::Known);
}
